//! Conversion of one scraped line into the canonical line format
//! `<timestamp_us>// <class>{<labels>} <value>`.
use vstd::prelude::*;
use vstd::utf8::encode_utf8;
use crate::clock::Instant;
use crate::error::ParseError;
use crate::labels::{add_labels, added, text_result};
use crate::text::{
    chars_of, decimal, decimal_chars, extend, find_char, is_char, lemma_rscan, lemma_scan,
    non_spacing, parse_decimal, parse_i64, rfind_char, rscan, scan, skip_spaces, skip_word, slice,
    spacing, string_from_chars, trim, trim_chars,
};

verus! {

/// The exposition format of a scraped endpoint.
#[derive(Clone, Copy, Debug, PartialEq, Eq, Structural)]
pub enum ScraperFormat {
    /// Prometheus text exposition.
    Prometheus,
    /// Lines already in the canonical (sensision) format.
    Sensision,
}

impl ScraperFormat {
    /// The format named `name`: `prometheus` or `sensision`.
    pub fn parse(name: &str) -> (r: Option<ScraperFormat>)
        ensures
            r == (if name@ == seq!['p', 'r', 'o', 'm', 'e', 't', 'h', 'e', 'u', 's'] {
                Some(ScraperFormat::Prometheus)
            } else if name@ == seq!['s', 'e', 'n', 's', 'i', 's', 'i', 'o', 'n'] {
                Some(ScraperFormat::Sensision)
            } else {
                None
            }),
    {
        let s = chars_of(name);
        if s.len() == 10 && s[0] == 'p' && s[1] == 'r' && s[2] == 'o' && s[3] == 'm' && s[4] == 'e'
            && s[5] == 't' && s[6] == 'h' && s[7] == 'e' && s[8] == 'u' && s[9] == 's' {
            assert(s@ =~= seq!['p', 'r', 'o', 'm', 'e', 't', 'h', 'e', 'u', 's']);
            Some(ScraperFormat::Prometheus)
        } else if s.len() == 9 && s[0] == 's' && s[1] == 'e' && s[2] == 'n' && s[3] == 's' && s[4]
            == 'i' && s[5] == 's' && s[6] == 'i' && s[7] == 'o' && s[8] == 'n' {
            assert(s@ =~= seq!['s', 'e', 'n', 's', 'i', 's', 'i', 'o', 'n']);
            Some(ScraperFormat::Sensision)
        } else {
            None
        }
    }
}

/// Whether a byte is left as it is by percent-encoding: an ASCII letter or
/// digit, `-`, `.`, `_` or `~`.
pub open spec fn is_unreserved(b: u8) -> bool {
    (48 <= b && b <= 57) || (65 <= b && b <= 90) || (97 <= b && b <= 122) || b == 45 || b == 46
        || b == 95 || b == 126
}

/// An upper-case hexadecimal digit.
pub open spec fn hex_upper(n: u8) -> char {
    if n < 10 {
        ((48 + n) as u8) as char
    } else {
        ((55 + n) as u8) as char
    }
}

pub open spec fn percent_bytes(b: Seq<u8>) -> Seq<char>
    decreases b.len(),
{
    if b.len() == 0 {
        Seq::empty()
    } else {
        let x = b.last();
        percent_bytes(b.drop_last()) + (if is_unreserved(x) {
            seq![x as char]
        } else {
            seq!['%', hex_upper(x / 16), hex_upper(x % 16)]
        })
    }
}

/// Percent-encoding of the UTF-8 bytes of `s`.
pub open spec fn percent_encode(s: Seq<char>) -> Seq<char> {
    percent_bytes(encode_utf8(s))
}

/// Relies on `urlencoding::encode`: each byte of the UTF-8 text is kept when
/// it is an ASCII letter or digit, `-`, `.`, `_` or `~`, and written as `%`
/// and two upper-case hexadecimal digits otherwise.
#[verifier::external_body]
fn url_encode(s: &Vec<char>) -> (r: Vec<char>)
    ensures
        r@ == percent_encode(s@),
{
    let text: String = s.iter().collect();
    urlencoding::encode(&text).chars().collect()
}

/// One step of the walk over a Prometheus label list: the encoded output so
/// far, whether a quoted value is open, and the pending text.
pub open spec fn walk_step(st: (Seq<char>, bool, Seq<char>), c: char) -> (Seq<char>, bool, Seq<char>) {
    let (out, quoted, buf) = st;
    if c == '"' {
        (out, !quoted, buf)
    } else if !quoted && (c == '=' || c == ',' || c == '}') {
        let mark = if c == ',' {
            seq![',']
        } else if c == '=' {
            seq!['=']
        } else {
            Seq::empty()
        };
        (out + percent_encode(buf) + mark, quoted, Seq::empty())
    } else {
        (out, quoted, buf.push(c))
    }
}

pub open spec fn walk(p: Seq<char>) -> (Seq<char>, bool, Seq<char>)
    decreases p.len(),
{
    if p.len() == 0 {
        (Seq::empty(), false, Seq::empty())
    } else {
        walk_step(walk(p.drop_last()), p.last())
    }
}

/// The canonical label list of the Prometheus label text `p` (what follows
/// the `{`): quotes are dropped, keys and values percent-encoded.
pub open spec fn encoded_labels(p: Seq<char>) -> Seq<char> {
    walk(p).0
}

/// The values that stand for no finite number.
pub open spec fn non_finite(v: Seq<char>) -> bool {
    v == seq!['+', 'I', 'n', 'f'] || v == seq!['-', 'I', 'n', 'f'] || v == seq!['n', 'a', 'n']
        || v == seq!['N', 'a', 'N']
}

/// Where the class of a trimmed Prometheus line ends: its last `}` when it
/// has a `{`, else its first space; `-1` when there is none.
pub open spec fn class_end(line: Seq<char>) -> int {
    if scan(line, is_char('{'), 0) < line.len() {
        rscan(line, '}', line.len() as int)
    } else {
        let f = scan(line, is_char(' '), 0);
        if f < line.len() {
            f
        } else {
            -1
        }
    }
}

/// Whether a line is skipped without error: empty or a comment once trimmed.
pub open spec fn skipped(line: Seq<char>) -> bool {
    let t = trim(line);
    t.len() == 0 || t[0] == '#'
}

/// The value token of a Prometheus line, when it has one.
pub open spec fn prometheus_value(input: Seq<char>) -> Option<Seq<char>> {
    let line = trim(input);
    let idx = class_end(line);
    let v = line.subrange(idx + 1, line.len() as int);
    let a = scan(v, non_spacing(), 0);
    if skipped(input) || idx < 0 || a >= v.len() {
        None
    } else {
        Some(v.subrange(a, scan(v, spacing(), a)))
    }
}

/// The canonical form of the Prometheus line `input`, `now` standing for a
/// missing or unreadable timestamp; an empty line for what is skipped.
pub open spec fn prometheus_line(input: Seq<char>, now: int) -> Result<Seq<char>, ParseError> {
    let line = trim(input);
    if skipped(input) {
        Ok(Seq::empty())
    } else {
        let idx = class_end(line);
        if idx < 0 {
            Err(ParseError::BadClass)
        } else {
            let class = line.subrange(0, idx + 1);
            let v = line.subrange(idx + 1, line.len() as int);
            let a = scan(v, non_spacing(), 0);
            let b = scan(v, spacing(), a);
            if a >= v.len() {
                Err(ParseError::NoValue)
            } else if non_finite(v.subrange(a, b)) {
                Ok(Seq::empty())
            } else {
                let c = scan(v, non_spacing(), b);
                let d = scan(v, spacing(), c);
                let ts = if c < v.len() {
                    match parse_i64(v.subrange(c, d)) {
                        Some(t) => t * 1000,
                        None => now,
                    }
                } else {
                    now
                };
                let o = scan(class, is_char('{'), 0);
                let labels = if o < class.len() {
                    encoded_labels(class.subrange(o + 1, class.len() as int))
                } else {
                    Seq::empty()
                };
                Ok(decimal(ts) + seq!['/', '/', ' '] + percent_encode(trim(class.subrange(0, o)))
                    + seq!['{'] + labels + seq!['}', ' '] + v.subrange(a, b))
            }
        }
    }
}

fn is_non_finite(v: &Vec<char>) -> (r: bool)
    ensures
        r == non_finite(v@),
{
    let r = if v.len() == 4 {
        (v[0] == '+' || v[0] == '-') && v[1] == 'I' && v[2] == 'n' && v[3] == 'f'
    } else if v.len() == 3 {
        (v[0] == 'n' && v[1] == 'a' && v[2] == 'n') || (v[0] == 'N' && v[1] == 'a' && v[2] == 'N')
    } else {
        false
    };
    proof {
        if r {
            if v.len() == 4 {
                if v[0] == '+' {
                    assert(v@ =~= seq!['+', 'I', 'n', 'f']);
                } else {
                    assert(v@ =~= seq!['-', 'I', 'n', 'f']);
                }
            } else if v[0] == 'n' {
                assert(v@ =~= seq!['n', 'a', 'n']);
            } else {
                assert(v@ =~= seq!['N', 'a', 'N']);
            }
        }
    }
    r
}

/// The canonical label list of the Prometheus label text `p`.
fn encode_labels(p: &Vec<char>) -> (r: Vec<char>)
    ensures
        r@ == encoded_labels(p@),
{
    let mut out: Vec<char> = Vec::new();
    let mut quoted = false;
    let mut buf: Vec<char> = Vec::new();
    let mut i: usize = 0;
    while i < p.len()
        invariant
            0 <= i <= p.len(),
            walk(p@.subrange(0, i as int)) == (out@, quoted, buf@),
        decreases p.len() - i,
    {
        let c = p[i];
        assert(p@.subrange(0, i + 1).drop_last() =~= p@.subrange(0, i as int));
        if c == '"' {
            quoted = !quoted;
        } else if !quoted && (c == '=' || c == ',' || c == '}') {
            let enc = url_encode(&buf);
            extend(&mut out, &enc);
            if c == ',' {
                out.push(',');
            } else if c == '=' {
                out.push('=');
            }
            buf = Vec::new();
            proof {
                let mark = if c == ',' {
                    seq![',']
                } else if c == '=' {
                    seq!['=']
                } else {
                    Seq::empty()
                };
                let prev = walk(p@.subrange(0, i as int));
                assert(out@ =~= prev.0 + percent_encode(prev.2) + mark);
                assert(buf@ =~= Seq::<char>::empty());
            }
        } else {
            buf.push(c);
        }
        i = i + 1;
    }
    assert(p@.subrange(0, p.len() as int) =~= p@);
    out
}

/// Converts one Prometheus exposition line into a canonical line; comments,
/// empty lines and non-finite values give an empty line.
#[verifier::rlimit(80)]
pub fn format_prometheus(line: &str, now: i64) -> (r: Result<String, ParseError>)
    ensures
        text_result(r) == prometheus_line(line@, now as int),
        skipped(line@) ==> text_result(r) == Ok::<Seq<char>, ParseError>(Seq::empty()),
        prometheus_value(line@) matches Some(v) && non_finite(v) ==> text_result(r) == Ok::<
            Seq<char>,
            ParseError,
        >(Seq::empty()),
        !skipped(line@) && !trim(line@).contains('}') && !trim(line@).contains(' ') ==> r
            == Err::<String, ParseError>(ParseError::BadClass),
{
    let raw = chars_of(line);
    let s = trim_chars(&raw);
    if s.len() == 0 || s[0] == '#' {
        return Ok(String::new());
    }
    let open = find_char(&s, '{', 0);
    proof {
        lemma_scan(s@, is_char('{'), 0);
        lemma_scan(s@, is_char(' '), 0);
        lemma_rscan(s@, '}', s@.len() as int);
        if !s@.contains('}') {
            if rscan(s@, '}', s@.len() as int) >= 0 {
                assert(s@[rscan(s@, '}', s@.len() as int)] == '}');
            }
        }
        if !s@.contains(' ') {
            if scan(s@, is_char(' '), 0) < s@.len() {
                assert(is_char(' ')(s@[scan(s@, is_char(' '), 0)]));
            }
        }
    }
    let idx: usize = if open < s.len() {
        match rfind_char(&s, '}', s.len()) {
            Some(k) => k,
            None => {
                return Err(ParseError::BadClass);
            },
        }
    } else {
        let f = find_char(&s, ' ', 0);
        if f >= s.len() {
            return Err(ParseError::BadClass);
        }
        f
    };
    let class = slice(&s, 0, idx + 1);
    let v = slice(&s, idx + 1, s.len());
    let a = skip_spaces(&v, 0);
    if a >= v.len() {
        return Err(ParseError::NoValue);
    }
    let b = skip_word(&v, a);
    proof {
        lemma_scan(v@, spacing(), a as int);
    }
    let value = slice(&v, a, b);
    if is_non_finite(&value) {
        return Ok(String::new());
    }
    let c = skip_spaces(&v, b);
    proof {
        lemma_scan(v@, non_spacing(), b as int);
    }
    let d = skip_word(&v, c);
    proof {
        lemma_scan(v@, spacing(), c as int);
    }
    let ts: i128 = if c < v.len() {
        let token = slice(&v, c, d);
        match parse_decimal(&token) {
            Some(t) => (t as i128) * 1000,
            None => now as i128,
        }
    } else {
        now as i128
    };
    let o = find_char(&class, '{', 0);
    proof {
        lemma_scan(class@, is_char('{'), 0);
    }
    let name = slice(&class, 0, o);
    let labels = if o < class.len() {
        let p = slice(&class, o + 1, class.len());
        encode_labels(&p)
    } else {
        Vec::new()
    };
    let mut out = decimal_chars(ts);
    out.push('/');
    out.push('/');
    out.push(' ');
    let trimmed = trim_chars(&name);
    let enc = url_encode(&trimmed);
    extend(&mut out, &enc);
    out.push('{');
    extend(&mut out, &labels);
    out.push('}');
    out.push(' ');
    extend(&mut out, &value);
    assert(out@ =~= decimal(ts as int) + seq!['/', '/', ' '] + percent_encode(trimmed@) + seq!['{']
        + labels@ + seq!['}', ' '] + value@);
    Ok(string_from_chars(&out))
}

/// A sensision line is already canonical: it is only trimmed.
pub fn format_warp10(line: &str) -> (r: Result<String, ParseError>)
    ensures
        text_result(r) == Ok::<Seq<char>, ParseError>(trim(line@)),
{
    let s = chars_of(line);
    let t = trim_chars(&s);
    Ok(string_from_chars(&t))
}

/// A sensision line, as given, with `labels` (written `k=v,...`) inserted
/// first in its label list; trimming is the caller's.
pub fn format_sensision(line: &str, labels: &str) -> (r: Result<String, ParseError>)
    ensures
        text_result(r) == added(line@, labels@),
{
    add_labels(line, labels)
}

/// Converts lines of one format into canonical lines, with the time at which
/// the document was fetched standing for missing timestamps.
#[derive(Clone, Copy, Debug)]
pub struct Transcompiler {
    pub format: ScraperFormat,
    /// Microseconds since the epoch.
    pub now: i64,
}

/// What `format` gives for `line`.
pub open spec fn transcompiled(t: Transcompiler, line: Seq<char>) -> Result<Seq<char>, ParseError> {
    match t.format {
        ScraperFormat::Sensision => Ok(trim(line)),
        ScraperFormat::Prometheus => prometheus_line(line, t.now as int),
    }
}

impl Transcompiler {
    /// A transcompiler for `format`, timestamped with the current time.
    pub fn new(format: ScraperFormat) -> (r: Transcompiler)
        ensures
            r.format == format,
    {
        let start = Instant::now();
        Transcompiler { format, now: start.micros() }
    }

    /// A transcompiler for `format`, timestamped with `now` (microseconds).
    pub fn at(format: ScraperFormat, now: i64) -> (r: Transcompiler)
        ensures
            r.format == format,
            r.now == now,
    {
        Transcompiler { format, now }
    }

    /// The canonical form of `line`; empty when the line is to be skipped.
    pub fn format(&self, line: &str) -> (r: Result<String, ParseError>)
        ensures
            text_result(r) == transcompiled(*self, line@),
    {
        match self.format {
            ScraperFormat::Sensision => format_warp10(line),
            ScraperFormat::Prometheus => format_prometheus(line, self.now),
        }
    }
}

} // verus!
