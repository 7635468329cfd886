//! The router's logic: the lines of a source spool file get the global
//! labels and are split among the sinks by their selectors.
use vstd::prelude::*;
use crate::clock::Instant;
use crate::error::ParseError;
use crate::labels::{add_labels, added};
use crate::matcher::{regex_matches, Selector};
use crate::scraper::lines_result;
use crate::spool::{unseen, SeenSet};
use crate::text::{
    chars_of, decimal, decimal_chars, extend, lemma_scan, lemma_split_on_len, lemma_split_on_step,
    non_spacing, scan, skip_spaces, skip_word, slice, spacing, split_on, string_from_chars,
    strings_view,
};

verus! {

pub open spec fn non_empty() -> spec_fn(Seq<char>) -> bool {
    |l: Seq<char>| l.len() > 0
}

/// The non-empty lines of a spool file's content.
pub open spec fn file_lines(content: Seq<char>) -> Seq<Seq<char>> {
    split_on(content, '\n').filter(non_empty())
}

/// The lines with `labels` added to each; the first error stops the work.
pub open spec fn labelled(lines: Seq<Seq<char>>, labels: Seq<char>) -> Result<
    Seq<Seq<char>>,
    ParseError,
>
    decreases lines.len(),
{
    if lines.len() == 0 {
        Ok(Seq::empty())
    } else {
        match labelled(lines.drop_last(), labels) {
            Err(e) => Err(e),
            Ok(acc) => match added(lines.last(), labels) {
                Err(e) => Err(e),
                Ok(l) => Ok(acc.push(l)),
            },
        }
    }
}


/// An error met on a prefix of the pieces of `s` is the error of all of them.
proof fn lemma_labelled_err(prefix: Seq<Seq<char>>, s: Seq<char>, i: int, labels: Seq<char>)
    requires
        0 <= i <= s.len(),
        i < s.len() ==> s[i] == '\n' && split_on(s.subrange(0, i + 1), '\n') == prefix.push(
            Seq::empty(),
        ),
        i == s.len() ==> split_on(s, '\n') == prefix,
        labelled(prefix.filter(non_empty()), labels) is Err,
    ensures
        labelled(file_lines(s), labels) == labelled(
            prefix.filter(non_empty()),
            labels,
        ),
    decreases s.len() - i,
{
    if i < s.len() {
        let t = s.subrange(0, i + 1);
        let rest = s.subrange(i + 1, s.len() as int);
        assert(s =~= s.subrange(0, i) + seq!['\n'] + rest);
        lemma_split_tail(s.subrange(0, i), rest);
        assert(split_on(s.subrange(0, i), '\n') == prefix) by {
            assert(t.drop_last() =~= s.subrange(0, i));
            assert(prefix.push(Seq::empty()).drop_last() =~= prefix);
        }
        let full = split_on(s, '\n');
        assert(full == prefix + split_on(rest, '\n'));
        reveal(Seq::filter);
        Seq::filter_distributes_over_add(prefix, split_on(rest, '\n'), non_empty());
        lemma_labelled_prefix_err(
            prefix.filter(non_empty()),
            split_on(rest, '\n').filter(non_empty()),
            labels,
        );
    }
}

proof fn lemma_split_tail(a: Seq<char>, b: Seq<char>)
    ensures
        split_on(a + seq!['\n'] + b, '\n') == split_on(a, '\n') + split_on(b, '\n'),
    decreases b.len(),
{
    if b.len() == 0 {
        assert((a + seq!['\n']).drop_last() =~= a);
        assert(a + seq!['\n'] + b =~= a + seq!['\n']);
        assert(split_on(a, '\n').push(Seq::empty()) =~= split_on(a, '\n') + split_on(b, '\n'));
    } else {
        let b0 = b.drop_last();
        lemma_split_tail(a, b0);
        assert((a + seq!['\n'] + b).drop_last() =~= a + seq!['\n'] + b0);
        lemma_split_on_len(b0, '\n');
        let wa = split_on(a, '\n');
        let wb = split_on(b0, '\n');
        if b.last() == '\n' {
            assert((wa + wb).push(Seq::empty()) =~= wa + wb.push(Seq::empty()));
        } else {
            assert((wa + wb).update((wa + wb).len() - 1, (wa + wb).last().push(b.last())) =~= wa
                + wb.update(wb.len() - 1, wb.last().push(b.last())));
        }
    }
}

proof fn lemma_labelled_prefix_err(p: Seq<Seq<char>>, q: Seq<Seq<char>>, labels: Seq<char>)
    requires
        labelled(p, labels) is Err,
    ensures
        labelled(p + q, labels) == labelled(p, labels),
    decreases q.len(),
{
    if q.len() == 0 {
        assert(p + q =~= p);
    } else {
        lemma_labelled_prefix_err(p, q.drop_last(), labels);
        assert((p + q).drop_last() =~= p + q.drop_last());
    }
}

/// The class of a canonical line: its second whitespace-separated token.
pub open spec fn line_class(l: Seq<char>) -> Option<Seq<char>> {
    let a = scan(l, non_spacing(), 0);
    let b = scan(l, spacing(), a);
    let c = scan(l, non_spacing(), b);
    let d = scan(l, spacing(), c);
    if c < l.len() {
        Some(l.subrange(c, d))
    } else {
        None
    }
}

/// The class of a canonical line, if it has one.
pub fn class_of(line: &str) -> (r: Option<String>)
    ensures
        match r {
            Some(c) => line_class(line@) == Some(c@),
            None => line_class(line@) is None,
        },
{
    let s = chars_of(line);
    let a = skip_spaces(&s, 0);
    proof {
        lemma_scan(s@, non_spacing(), 0);
    }
    let b = skip_word(&s, a);
    proof {
        lemma_scan(s@, spacing(), a as int);
    }
    let c = skip_spaces(&s, b);
    proof {
        lemma_scan(s@, non_spacing(), b as int);
    }
    let d = skip_word(&s, c);
    proof {
        lemma_scan(s@, spacing(), c as int);
    }
    if c < s.len() {
        Some(string_from_chars(&slice(&s, c, d)))
    } else {
        None
    }
}

/// Whether a sink with `selector` takes `line`: always without selector;
/// else when the line has a class that the selector matches.
pub open spec fn takes(selector: Option<Seq<char>>, line: Seq<char>) -> bool {
    match selector {
        None => true,
        Some(p) => match line_class(line) {
            Some(c) => regex_matches(p, c),
            None => false,
        },
    }
}

pub open spec fn taker(selector: Option<Seq<char>>) -> spec_fn(Seq<char>) -> bool {
    |l: Seq<char>| takes(selector, l)
}

/// One sink as the router sees it.
pub struct Route {
    /// The sink's name.
    pub name: String,
    /// The regular expression that the class of a line must match, if any.
    pub selector: Option<Selector>,
}

pub open spec fn selector_pattern(s: Option<Selector>) -> Option<Seq<char>> {
    match s {
        Some(x) => Some(x.pattern()),
        None => None,
    }
}

/// The lines that a sink with `selector` takes, in order.
pub fn select(lines: &Vec<String>, selector: &Option<Selector>) -> (r: Vec<String>)
    ensures
        strings_view(r@) == strings_view(lines@).filter(taker(selector_pattern(*selector))),
{
    let ghost t = taker(selector_pattern(*selector));
    let mut out: Vec<String> = Vec::new();
    let mut i: usize = 0;
    assert(strings_view(out@) =~= strings_view(lines@).subrange(0, 0).filter(t));
    while i < lines.len()
        invariant
            0 <= i <= lines.len(),
            t == taker(selector_pattern(*selector)),
            strings_view(out@) == strings_view(lines@).subrange(0, i as int).filter(t),
        decreases lines.len() - i,
    {
        let ghost pre = strings_view(lines@).subrange(0, i as int);
        let ghost l = lines@[i as int]@;
        assert(strings_view(lines@).subrange(0, i + 1) =~= pre.push(l));
        reveal(Seq::filter);
        assert(pre.push(l).drop_last() =~= pre);
        let keep = match selector {
            None => true,
            Some(sel) => match class_of(lines[i].as_str()) {
                Some(c) => sel.is_match(c.as_str()),
                None => false,
            },
        };
        if keep {
            let ghost before = out@;
            out.push(lines[i].clone());
            assert(strings_view(out@) =~= strings_view(before).push(l));
        }
        i = i + 1;
    }
    assert(strings_view(lines@).subrange(0, lines.len() as int) =~= strings_view(lines@));
    out
}

/// The lines going to each sink, by the sink's index; sinks that take no
/// line are left out.
pub fn route(lines: &Vec<String>, routes: &Vec<Route>) -> (r: Vec<(usize, Vec<String>)>)
    ensures
        forall|k: int|
            0 <= k < r@.len() ==> {
                let (i, v) = #[trigger] r@[k];
                &&& i < routes@.len()
                &&& v@.len() > 0
                &&& strings_view(v@) == strings_view(lines@).filter(
                    taker(selector_pattern(routes@[i as int].selector)),
                )
            },
        forall|k: int, m: int| 0 <= k < m < r@.len() ==> (#[trigger] r@[k]).0 < (#[trigger] r@[m]).0,
        forall|i: int|
            0 <= i < routes@.len() && strings_view(lines@).filter(
                taker(selector_pattern(routes@[i].selector)),
            ).len() > 0 ==> exists|k: int| 0 <= k < r@.len() && (#[trigger] r@[k]).0 == i,
{
    let mut out: Vec<(usize, Vec<String>)> = Vec::new();
    let mut i: usize = 0;
    while i < routes.len()
        invariant
            0 <= i <= routes.len(),
            forall|k: int|
                0 <= k < out@.len() ==> {
                    let (j, v) = #[trigger] out@[k];
                    &&& j < i
                    &&& v@.len() > 0
                    &&& strings_view(v@) == strings_view(lines@).filter(
                        taker(selector_pattern(routes@[j as int].selector)),
                    )
                },
            forall|k: int, m: int|
                0 <= k < m < out@.len() ==> (#[trigger] out@[k]).0 < (#[trigger] out@[m]).0,
            forall|j: int|
                0 <= j < i && strings_view(lines@).filter(
                    taker(selector_pattern(routes@[j].selector)),
                ).len() > 0 ==> exists|k: int| 0 <= k < out@.len() && (#[trigger] out@[k]).0 == j,
        decreases routes.len() - i,
    {
        let chosen = select(lines, &routes[i].selector);
        if chosen.len() > 0 {
            let ghost before = out@;
            out.push((i, chosen));
            proof {
                assert forall|j: int|
                    0 <= j <= i && strings_view(lines@).filter(
                        taker(selector_pattern(routes@[j].selector)),
                    ).len() > 0 implies exists|k: int|
                    0 <= k < out@.len() && (#[trigger] out@[k]).0 == j by {
                    if j < i {
                        let k = choose|k: int| 0 <= k < before.len() && (#[trigger] before[k]).0 == j;
                        assert(out@[k] == before[k]);
                    } else {
                        assert(out@[before.len() as int].0 == j);
                    }
                }
            }
        } else {
            proof {
                assert(strings_view(chosen@).len() == 0);
            }
        }
        i = i + 1;
    }
    out
}

/// An identifier that keeps the names of files written at once apart:
/// `<sec>#<nsec>#<uuid>`.
pub struct RunId {
    pub sec: i64,
    pub nsec: i32,
    pub uuid: String,
}

/// Relies on `uuid::Uuid::new_v4` and its `Display`: a random version 4
/// UUID in its hyphenated form.
#[verifier::external_body]
fn random_uuid() -> (r: String)
    ensures
        r@.len() == 36,
{
    uuid::Uuid::new_v4().to_string()
}

pub open spec fn run_id_text(sec: int, nsec: int, uuid: Seq<char>) -> Seq<char> {
    decimal(sec) + seq!['#'] + decimal(nsec) + seq!['#'] + uuid
}

/// The name of a sink spool file: `<sink>-<index>-<run id>.<ext>`.
pub open spec fn sink_file_name(sink: Seq<char>, index: int, run: RunId, ext: Seq<char>) -> Seq<
    char,
> {
    sink + seq!['-'] + decimal(index) + seq!['-'] + run_id_text(run.sec as int, run.nsec as int, run.uuid@)
        + seq!['.'] + ext
}

impl RunId {
    /// The current time and a fresh random UUID.
    pub fn now() -> (r: RunId)
        ensures
            0 <= r.nsec < 1_000_000_000,
            r.uuid@.len() == 36,
    {
        let t = Instant::now();
        RunId { sec: t.sec, nsec: t.nsec, uuid: random_uuid() }
    }

    /// The name of the file for the sink `sink` (at `index` among the
    /// sinks), with extension `ext`.
    pub fn file_name(&self, sink: &str, index: usize, ext: &str) -> (r: String)
        ensures
            r@ == sink_file_name(sink@, index as int, *self, ext@),
    {
        let mut out = chars_of(sink);
        out.push('-');
        let k = decimal_chars(index as i128);
        extend(&mut out, &k);
        out.push('-');
        let a = decimal_chars(self.sec as i128);
        extend(&mut out, &a);
        out.push('#');
        let b = decimal_chars(self.nsec as i128);
        extend(&mut out, &b);
        out.push('#');
        let u = chars_of(self.uuid.as_str());
        extend(&mut out, &u);
        out.push('.');
        let e = chars_of(ext);
        extend(&mut out, &e);
        assert(out@ =~= sink_file_name(sink@, index as int, *self, ext@));
        string_from_chars(&out)
    }
}

proof fn lemma_labelled_each(src: Seq<Seq<char>>, labels: Seq<char>, out: Seq<Seq<char>>)
    requires
        labelled(src, labels) == Ok::<Seq<Seq<char>>, ParseError>(out),
    ensures
        out.len() == src.len(),
        forall|k: int|
            0 <= k < out.len() ==> added(src[k], labels) == Ok::<Seq<char>, ParseError>(
                #[trigger] out[k],
            ),
    decreases src.len(),
{
    if src.len() > 0 {
        let acc = labelled(src.drop_last(), labels)->Ok_0;
        lemma_labelled_each(src.drop_last(), labels, acc);
        assert(out == acc.push(added(src.last(), labels)->Ok_0));
        assert forall|k: int| 0 <= k < out.len() implies added(src[k], labels) == Ok::<
            Seq<char>,
            ParseError,
        >(#[trigger] out[k]) by {
            if k < acc.len() {
                assert(out[k] == acc[k]);
                assert(src.drop_last()[k] == src[k]);
            }
        }
    }
}

/// Every line the router sends to a sink comes from a line of the source
/// file: it is a non-empty line of the file with the global labels added,
/// and the sink's selector takes it.
pub proof fn lemma_routed_from_source(
    content: Seq<char>,
    labels: Seq<char>,
    selector: Option<Seq<char>>,
    lines: Seq<Seq<char>>,
    l: Seq<char>,
)
    requires
        labelled(file_lines(content), labels) == Ok::<Seq<Seq<char>>, ParseError>(lines),
        lines.filter(taker(selector)).contains(l),
    ensures
        takes(selector, l),
        exists|s: Seq<char>|
            #[trigger] file_lines(content).contains(s) && s.len() > 0 && added(s, labels) == Ok::<
                Seq<char>,
                ParseError,
            >(l),
{
    let f = lines.filter(taker(selector));
    let j = choose|j: int| 0 <= j < f.len() && f[j] == l;
    lines.lemma_filter_pred(taker(selector), j);
    lines.lemma_filter_contains_rev(taker(selector), l);
    let k = choose|k: int| 0 <= k < lines.len() && lines[k] == l;
    let src = file_lines(content);
    lemma_labelled_each(src, labels, lines);
    assert(added(src[k], labels) == Ok::<Seq<char>, ParseError>(lines[k]));
    split_on(content, '\n').lemma_filter_pred(non_empty(), k);
    assert(src.contains(src[k]));
}

/// What a router works with.
pub struct RouterConfig {
    /// The source spool directory.
    pub dir: String,
    /// Milliseconds between two scans of the source spool.
    pub watch_period: u64,
    /// Files processed at once.
    pub parallel: u64,
    /// The sinks, in their configured order.
    pub sinks: Vec<Route>,
    /// The sink spool directory.
    pub sink_dir: String,
    /// Labels added to every line, written `k=v,...`.
    pub labels: String,
}

/// A router: it watches the source spool and fans each new file out to the
/// sink spools.
pub struct Router {
    pub config: RouterConfig,
    /// The source files found by the previous scan, but those whose routing
    /// failed.
    pub seen: SeenSet,
}

impl Router {
    /// The lines of a source spool file, ready to route: its non-empty lines
    /// with `labels` (written `k=v,...`) added.
    pub fn process(content: &str, labels: &str) -> (r: Result<Vec<String>, ParseError>)
        ensures
            lines_result(r) == labelled(file_lines(content@), labels@),
    {
        let s = chars_of(content);
        let mut out: Vec<String> = Vec::new();
        let mut current: Vec<char> = Vec::new();
        let ghost mut pieces: Seq<Seq<char>> = Seq::empty();
        let ghost nonempty = non_empty();
        let mut i: usize = 0;
        let mut finished = false;
        assert(strings_view(out@) =~= Seq::<Seq<char>>::empty());
        while !finished
            invariant
                0 <= i <= s.len(),
                s@ == content@,
                nonempty == non_empty(),
                !finished ==> split_on(s@.subrange(0, i as int), '\n') == pieces.push(current@),
                finished ==> split_on(s@, '\n') == pieces,
                labelled(pieces.filter(nonempty), labels@) == Ok::<Seq<Seq<char>>, ParseError>(
                    strings_view(out@),
                ),
            decreases s.len() - i + (if finished {
                0int
            } else {
                1int
            }),
        {
            if i == s.len() || s[i] == '\n' {
                proof {
                    if i < s.len() {
                        lemma_split_on_step(s@, '\n', i as int);
                    } else {
                        assert(s@.subrange(0, i as int) =~= s@);
                    }
                }
                let ghost cv = current@;
                let ghost pf = pieces.filter(nonempty);
                assert(pieces.push(cv).drop_last() =~= pieces);
                reveal(Seq::filter);
                if current.len() > 0 {
                    let line = string_from_chars(&current);
                    match add_labels(line.as_str(), labels) {
                        Ok(l) => {
                            let ghost before = out@;
                            out.push(l);
                            assert(strings_view(out@) =~= strings_view(before).push(l@));
                            assert(pieces.push(cv).filter(nonempty) =~= pf.push(cv));
                            assert(pf.push(cv).drop_last() =~= pf);
                        },
                        Err(e) => {
                            proof {
                                assert(pieces.push(cv).filter(nonempty) =~= pf.push(cv));
                                assert(pf.push(cv).drop_last() =~= pf);
                                lemma_split_on_len(s@, '\n');
                                lemma_labelled_err(pieces.push(cv), s@, i as int, labels@);
                            }
                            return Err(e);
                        },
                    }
                } else {
                    assert(pieces.push(cv).filter(nonempty) =~= pf);
                }
                current = Vec::new();
                proof {
                    pieces = pieces.push(cv);
                    if i < s.len() {
                        assert(split_on(s@.subrange(0, i + 1), '\n') =~= pieces.push(current@));
                    }
                }
                if i == s.len() {
                    finished = true;
                } else {
                    i = i + 1;
                }
            } else {
                proof {
                    lemma_split_on_step(s@, '\n', i as int);
                }
                current.push(s[i]);
                assert(split_on(s@.subrange(0, i + 1), '\n') =~= pieces.push(current@));
                i = i + 1;
            }
        }
        Ok(out)
    }

    pub fn new(config: RouterConfig) -> (r: Router)
        ensures
            r.config == config,
            r.seen@ == Seq::<Seq<char>>::empty(),
    {
        Router { config, seen: SeenSet::new() }
    }

    /// Handles a scan of the source spool that found `paths`: returns the
    /// files to route, those not found by the previous scan.
    pub fn scan(&mut self, paths: &Vec<String>) -> (new: Vec<String>)
        ensures
            strings_view(new@) == unseen(strings_view(paths@), old(self).seen@),
            final(self).seen@ == strings_view(paths@),
    {
        self.seen.observe(paths)
    }

    /// Routing `path` failed: it is left in place and routed again after the
    /// next scan that finds it.
    pub fn failed(&mut self, path: &str)
        ensures
            final(self).seen@ == old(self).seen@.filter(|q: Seq<char>| q != path@),
    {
        self.seen.forget(path)
    }
}

} // verus!
