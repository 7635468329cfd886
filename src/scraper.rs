//! The scraper's logic: a fetched document is cut into lines, each line is
//! made canonical, filtered and relabelled, and the result is cut into spool
//! files without ever splitting a line or a multi-part sample.
use vstd::prelude::*;
use crate::error::ParseError;
use crate::labels::{add_labels, added, label_text, pair_texts, remove_labels, removed, text_result};
use crate::matcher::{regex_set_matches, MetricFilter};
use crate::text::{
    byte_len, chars_of, decimal, decimal_chars, extend, lemma_split_on_len, lemma_split_on_step, split_on,
    string_from_chars, strings_view,
};
use crate::transcompiler::{transcompiled, Transcompiler};

verus! {

/// A line without the carriage return that ends it, if any.
pub open spec fn strip_cr(l: Seq<char>) -> Seq<char> {
    if l.len() > 0 && l.last() == '\r' {
        l.drop_last()
    } else {
        l
    }
}

/// `str::lines`: the text cut at each `\n`, a `\r` before it dropped; a
/// final empty line is not one.
pub open spec fn text_lines(s: Seq<char>) -> Seq<Seq<char>> {
    let p = split_on(s, '\n');
    let n = p.len();
    let k = if p[n - 1].len() == 0 {
        n - 1
    } else {
        n as int
    };
    Seq::new(
        k as nat,
        |i: int|
            if i < n - 1 {
                strip_cr(p[i])
            } else {
                p[i]
            },
    )
}

/// The lines of `body`, as `str::lines` gives them.
pub fn split_lines(body: &str) -> (r: Vec<String>)
    ensures
        strings_view(r@) == text_lines(body@),
{
    let s = chars_of(body);
    let mut done: Vec<String> = Vec::new();
    let mut current: Vec<char> = Vec::new();
    let ghost mut pieces: Seq<Seq<char>> = Seq::empty();
    let mut i: usize = 0;
    while i < s.len()
        invariant
            0 <= i <= s.len(),
            s@ == body@,
            split_on(s@.subrange(0, i as int), '\n') == pieces.push(current@),
            strings_view(done@) == Seq::new(pieces.len(), |k: int| strip_cr(pieces[k])),
        decreases s.len() - i,
    {
        proof {
            lemma_split_on_step(s@, '\n', i as int);
        }
        let c = s[i];
        if c == '\n' {
            let n = current.len();
            let line = if n > 0 && current[n - 1] == '\r' {
                let mut l = current;
                l.pop();
                l
            } else {
                current
            };
            let ghost cv = current@;
            proof {
                assert(line@ == strip_cr(cv));
            }
            let ghost before = done@;
            let ls = string_from_chars(&line);
            done.push(ls);
            current = Vec::new();
            proof {
                assert(strings_view(done@) =~= strings_view(before).push(ls@));
                assert(strings_view(done@) =~= Seq::new(
                    pieces.push(cv).len(),
                    |k: int| strip_cr(pieces.push(cv)[k]),
                ));
                pieces = pieces.push(cv);
                assert(split_on(s@.subrange(0, i + 1), '\n') =~= pieces.push(current@));
            }
        } else {
            current.push(c);
            proof {
                assert(split_on(s@.subrange(0, i + 1), '\n') =~= pieces.push(current@));
            }
        }
        i = i + 1;
    }
    assert(s@.subrange(0, s.len() as int) =~= s@);
    proof {
        lemma_split_on_len(s@, '\n');
        assert(split_on(body@, '\n') == pieces.push(current@));
    }
    if current.len() > 0 {
        let ghost before = done@;
        let ls = string_from_chars(&current);
        done.push(ls);
        assert(strings_view(done@) =~= strings_view(before).push(ls@));
        assert(strings_view(done@) =~= text_lines(body@));
    } else {
        assert(strings_view(done@) =~= text_lines(body@));
    }
    done
}

/// The patterns of an optional filter.
pub open spec fn filter_patterns(f: Option<MetricFilter>) -> Option<Seq<Seq<char>>> {
    match f {
        Some(m) => Some(m.patterns()),
        None => None,
    }
}

/// What becomes of one line of a scraped document: `None` when it is
/// skipped. A line starting with `=` continues a multi-part sample and keeps
/// its labels as they are.
#[verifier::opaque]
pub open spec fn scraped_line(
    t: Transcompiler,
    filter: Option<Seq<Seq<char>>>,
    labels: Seq<char>,
    drop: Seq<Seq<char>>,
    line: Seq<char>,
) -> Result<Option<Seq<char>>, ParseError> {
    match transcompiled(t, line) {
        Err(e) => Err(e),
        Ok(c) => if c.len() == 0 {
            Ok(None)
        } else if filter matches Some(ps) && !regex_set_matches(ps, c) {
            Ok(None)
        } else if c[0] == '=' {
            Ok(Some(c))
        } else {
            match added(c, labels) {
                Err(e) => Err(e),
                Ok(a) => match removed(a, drop) {
                    Err(e) => Err(e),
                    Ok(r) => Ok(Some(r)),
                },
            }
        },
    }
}

/// The lines kept from `lines`, in order; the first error stops the work.
pub open spec fn scraped(
    t: Transcompiler,
    filter: Option<Seq<Seq<char>>>,
    labels: Seq<char>,
    drop: Seq<Seq<char>>,
    lines: Seq<Seq<char>>,
) -> Result<Seq<Seq<char>>, ParseError>
    decreases lines.len(),
{
    if lines.len() == 0 {
        Ok(Seq::empty())
    } else {
        match scraped(t, filter, labels, drop, lines.drop_last()) {
            Err(e) => Err(e),
            Ok(acc) => match scraped_line(t, filter, labels, drop, lines.last()) {
                Err(e) => Err(e),
                Ok(None) => Ok(acc),
                Ok(Some(l)) => Ok(acc.push(l)),
            },
        }
    }
}

pub open spec fn lines_result(r: Result<Vec<String>, ParseError>) -> Result<
    Seq<Seq<char>>,
    ParseError,
> {
    match r {
        Ok(v) => Ok(strings_view(v@)),
        Err(e) => Err(e),
    }
}

/// The labels `k=v` of `pairs`, joined with `,`.
pub fn join_labels(pairs: &Vec<(String, String)>) -> (r: String)
    ensures
        r@ == label_text(pair_texts(pairs@)),
{
    let ghost pieces = pair_texts(pairs@).map_values(
        |p: (Seq<char>, Seq<char>)| p.0 + seq!['='] + p.1,
    );
    let mut out: Vec<char> = Vec::new();
    let mut k: usize = 0;
    while k < pairs.len()
        invariant
            0 <= k <= pairs.len(),
            pieces.len() == pairs.len(),
            pieces == pair_texts(pairs@).map_values(
                |p: (Seq<char>, Seq<char>)| p.0 + seq!['='] + p.1,
            ),
            out@ == crate::text::join_with(pieces.subrange(0, k as int), ','),
        decreases pairs.len() - k,
    {
        assert(pieces.subrange(0, k + 1).drop_last() =~= pieces.subrange(0, k as int));
        if k > 0 {
            out.push(',');
        }
        let key = chars_of(pairs[k].0.as_str());
        let value = chars_of(pairs[k].1.as_str());
        let ghost before = out@;
        extend(&mut out, &key);
        out.push('=');
        extend(&mut out, &value);
        assert(pieces[k as int] == key@ + seq!['='] + value@);
        if k > 0 {
            assert(out@ =~= before + pieces[k as int]);
        } else {
            assert(out@ =~= pieces[k as int]);
        }
        k = k + 1;
    }
    assert(pieces.subrange(0, pairs.len() as int) =~= pieces);
    string_from_chars(&out)
}

/// What becomes of one line of a fetched document; `None` when it is skipped.
fn process_line(
    transcompiler: &Transcompiler,
    line: &str,
    filter: &Option<MetricFilter>,
    labels: &str,
    drop: &Vec<String>,
) -> (r: Result<Option<String>, ParseError>)
    ensures
        match r {
            Ok(Some(s)) => scraped_line(
                *transcompiler,
                filter_patterns(*filter),
                labels@,
                strings_view(drop@),
                line@,
            ) == Ok::<Option<Seq<char>>, ParseError>(Some(s@)),
            Ok(None) => scraped_line(
                *transcompiler,
                filter_patterns(*filter),
                labels@,
                strings_view(drop@),
                line@,
            ) == Ok::<Option<Seq<char>>, ParseError>(None),
            Err(e) => scraped_line(
                *transcompiler,
                filter_patterns(*filter),
                labels@,
                strings_view(drop@),
                line@,
            ) == Err::<Option<Seq<char>>, ParseError>(e),
        },
{
    reveal(scraped_line);
    let c = match transcompiler.format(line) {
        Ok(c) => c,
        Err(e) => {
            return Err(e);
        },
    };
    let cs = chars_of(c.as_str());
    if cs.len() == 0 {
        return Ok(None);
    }
    let keep = match filter {
        Some(f) => f.is_match(c.as_str()),
        None => true,
    };
    if !keep {
        return Ok(None);
    }
    if cs[0] == '=' {
        return Ok(Some(c));
    }
    let a = match add_labels(c.as_str(), labels) {
        Ok(a) => a,
        Err(e) => {
            return Err(e);
        },
    };
    match remove_labels(a.as_str(), drop.as_slice()) {
        Ok(r) => Ok(Some(r)),
        Err(e) => Err(e),
    }
}

/// Turns a fetched document into canonical lines: each line is
/// transcompiled; empty results and lines that `filter` rejects are
/// skipped; `labels` (written `k=v,...`) are added to the others and the
/// labels keyed in `drop` removed, except on continuation lines (`=`...).
pub fn process(
    transcompiler: &Transcompiler,
    body: &str,
    filter: &Option<MetricFilter>,
    labels: &str,
    drop: &Vec<String>,
) -> (r: Result<Vec<String>, ParseError>)
    ensures
        lines_result(r) == scraped(
            *transcompiler,
            filter_patterns(*filter),
            labels@,
            strings_view(drop@),
            text_lines(body@),
        ),
{
    let lines = split_lines(body);
    let ghost fp = filter_patterns(*filter);
    let ghost dv = strings_view(drop@);
    let ghost all = strings_view(lines@);
    let mut out: Vec<String> = Vec::new();
    let mut i: usize = 0;
    assert(strings_view(out@) =~= Seq::<Seq<char>>::empty());
    while i < lines.len()
        invariant
            0 <= i <= lines.len(),
            all == strings_view(lines@),
            all == text_lines(body@),
            fp == filter_patterns(*filter),
            dv == strings_view(drop@),
            scraped(*transcompiler, fp, labels@, dv, all.subrange(0, i as int)) == Ok::<
                Seq<Seq<char>>,
                ParseError,
            >(strings_view(out@)),
        decreases lines.len() - i,
    {
        let ghost pre = all.subrange(0, i as int);
        assert(all.subrange(0, i + 1).drop_last() =~= pre);
        assert(all.subrange(0, i + 1).last() == lines@[i as int]@);
        match process_line(transcompiler, lines[i].as_str(), filter, labels, drop) {
            Err(e) => {
                proof {
                    assert(scraped(*transcompiler, fp, labels@, dv, all.subrange(0, i + 1)) == Err::<
                        Seq<Seq<char>>,
                        ParseError,
                    >(e));
                    lemma_scraped_err_extends(*transcompiler, fp, labels@, dv, all, i as int + 1);
                }
                return Err(e);
            },
            Ok(None) => {},
            Ok(Some(line)) => {
                let ghost before = out@;
                out.push(line);
                assert(strings_view(out@) =~= strings_view(before).push(line@));
            },
        }
        i = i + 1;
    }
    assert(all.subrange(0, lines.len() as int) =~= all);
    Ok(out)
}

proof fn lemma_scraped_err_extends(
    t: Transcompiler,
    filter: Option<Seq<Seq<char>>>,
    labels: Seq<char>,
    drop: Seq<Seq<char>>,
    all: Seq<Seq<char>>,
    n: int,
)
    requires
        0 <= n <= all.len(),
        scraped(t, filter, labels, drop, all.subrange(0, n)) is Err,
    ensures
        scraped(t, filter, labels, drop, all) == scraped(t, filter, labels, drop, all.subrange(0, n)),
    decreases all.len() - n,
{
    if n < all.len() {
        assert(all.subrange(0, n + 1).drop_last() =~= all.subrange(0, n));
        lemma_scraped_err_extends(t, filter, labels, drop, all, n + 1);
    } else {
        assert(all.subrange(0, n) =~= all);
    }
}

/// Whether a canonical line continues a multi-part sample.
pub open spec fn continues(l: Seq<char>) -> bool {
    l.len() > 0 && l[0] == '='
}

/// The state of cutting `lines` into files of about `limit` bytes: the files
/// closed, the lines of the open one, and the bytes of those lines.
pub open spec fn cut_state(lines: Seq<Seq<char>>, limit: int) -> (
    Seq<Seq<Seq<char>>>,
    Seq<Seq<char>>,
    int,
)
    decreases lines.len(),
{
    if lines.len() == 0 {
        (Seq::empty(), Seq::empty(), 0)
    } else {
        let (done, cur, acc) = cut_state(lines.drop_last(), limit);
        let l = lines.last();
        if acc > limit && !continues(l) {
            (
                if cur.len() > 0 {
                    done.push(cur)
                } else {
                    done
                },
                seq![l],
                byte_len(l),
            )
        } else {
            (done, cur.push(l), acc + byte_len(l))
        }
    }
}

/// The files that `lines` are cut into: the open file is closed before a
/// line that does not continue a multi-part sample, when the lines it holds
/// already exceed `limit` bytes.
pub open spec fn cut_files(lines: Seq<Seq<char>>, limit: int) -> Seq<Seq<Seq<char>>> {
    let (done, cur, _) = cut_state(lines, limit);
    if cur.len() > 0 {
        done.push(cur)
    } else {
        done
    }
}

pub open spec fn flatten(files: Seq<Seq<Seq<char>>>) -> Seq<Seq<char>>
    decreases files.len(),
{
    if files.len() == 0 {
        Seq::empty()
    } else {
        flatten(files.drop_last()) + files.last()
    }
}

pub open spec fn nested_views(v: Seq<Vec<String>>) -> Seq<Seq<Seq<char>>> {
    Seq::new(v.len(), |i: int| strings_view(v[i]@))
}

/// Cuts `lines` into the contents of successive spool files of about
/// `batch_size` bytes. Every line lands whole in exactly one file, in order;
/// no file is empty; and a file never starts with a line continuing a
/// multi-part sample, which thus stays with its head.
pub fn cut_lines(lines: &Vec<String>, batch_size: u64) -> (r: Vec<Vec<String>>)
    ensures
        nested_views(r@) == cut_files(strings_view(lines@), batch_size as int),
        flatten(nested_views(r@)) == strings_view(lines@),
        forall|k: int| 0 <= k < r@.len() ==> (#[trigger] r@[k])@.len() > 0,
        forall|k: int| 0 < k < r@.len() ==> !continues((#[trigger] r@[k])@[0]@),
{
    let ghost all = strings_view(lines@);
    let mut files: Vec<Vec<String>> = Vec::new();
    let mut cur: Vec<String> = Vec::new();
    let mut acc: u128 = 0;
    let mut i: usize = 0;
    while i < lines.len()
        invariant
            0 <= i <= lines.len(),
            all == strings_view(lines@),
            cut_state(all.subrange(0, i as int), batch_size as int) == (
                nested_views(files@),
                strings_view(cur@),
                acc as int,
            ),
            acc <= i * 18446744073709551616u128,
            flatten(nested_views(files@)) + strings_view(cur@) == all.subrange(0, i as int),
            forall|k: int| 0 <= k < files@.len() ==> (#[trigger] files@[k])@.len() > 0,
            forall|k: int| 0 < k < files@.len() ==> !continues((#[trigger] files@[k])@[0]@),
            files@.len() > 0 && cur@.len() > 0 ==> !continues(cur@[0]@),
        decreases lines.len() - i,
    {
        let ghost pre = all.subrange(0, i as int);
        assert(all.subrange(0, i + 1).drop_last() =~= pre);
        let line = lines[i].clone();
        let n = line.as_str().len() as u128;
        assert(n as int == byte_len(all[i as int]));
        let cs = chars_of(line.as_str());
        let is_cont = cs.len() > 0 && cs[0] == '=';
        assert(is_cont == continues(line@));
        if acc > batch_size as u128 && !is_cont {
            let ghost fv = nested_views(files@);
            let ghost cv = strings_view(cur@);
            if cur.len() > 0 {
                files.push(cur);
                assert(nested_views(files@) =~= fv.push(cv));
                assert(nested_views(files@).drop_last() =~= fv);
            }
            cur = Vec::new();
            cur.push(line);
            acc = n;
            proof {
                assert(strings_view(cur@) =~= seq![all[i as int]]);
                assert(flatten(nested_views(files@)) + strings_view(cur@) =~= all.subrange(
                    0,
                    i + 1,
                ));
            }
        } else {
            let ghost cv = strings_view(cur@);
            cur.push(line);
            acc = acc + n;
            proof {
                assert(strings_view(cur@) =~= cv.push(all[i as int]));
                assert(flatten(nested_views(files@)) + strings_view(cur@) =~= all.subrange(
                    0,
                    i + 1,
                ));
            }
        }
        i = i + 1;
    }
    assert(all.subrange(0, lines.len() as int) =~= all);
    let ghost fv = nested_views(files@);
    let ghost cv = strings_view(cur@);
    if cur.len() > 0 {
        files.push(cur);
        assert(nested_views(files@) =~= fv.push(cv));
        assert(nested_views(files@).drop_last() =~= fv);
    } else {
        assert(cv =~= Seq::<Seq<char>>::empty());
        assert(flatten(fv) + cv =~= flatten(fv));
    }
    files
}

/// The name of a spool file a scraper writes: `<scraper>-<now>-<index>.<ext>`.
pub open spec fn source_file_name(scraper: Seq<char>, now: int, index: int, ext: Seq<char>) -> Seq<
    char,
> {
    scraper + seq!['-'] + decimal(now) + seq!['-'] + decimal(index) + seq!['.'] + ext
}

/// The name of the `index`-th spool file written by `scraper` for the
/// document fetched at `now` (microseconds), with extension `ext`.
pub fn source_file(scraper: &str, now: i64, index: u64, ext: &str) -> (r: String)
    ensures
        r@ == source_file_name(scraper@, now as int, index as int, ext@),
{
    let mut out = chars_of(scraper);
    out.push('-');
    let d = decimal_chars(now as i128);
    extend(&mut out, &d);
    out.push('-');
    let k = decimal_chars(index as i128);
    extend(&mut out, &k);
    out.push('.');
    let e = chars_of(ext);
    extend(&mut out, &e);
    assert(out@ =~= source_file_name(scraper@, now as int, index as int, ext@));
    string_from_chars(&out)
}

} // verus!
