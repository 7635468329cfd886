//! Inserting and removing labels on a canonical line
//! `<ts>// <class>{<k=v>,...} <value>`.
use vstd::prelude::*;
use crate::error::ParseError;
use crate::text::{
    is_space,
    strings_view,
    chars_of, lemma_rscan_unique, lemma_scan, lemma_scan_pair_unique, lemma_scan_unique, extend, find_char, find_pair, is_char, join_with, lemma_scan_pair, non_spacing,
    lemma_rscan, rfind_char, rscan, scan, scan_pair, skip_spaces, slice, split_on, string_from_chars,
};

verus! {

/// The view of a textual result.
pub open spec fn text_result(r: Result<String, ParseError>) -> Result<Seq<char>, ParseError> {
    match r {
        Ok(s) => Ok(s@),
        Err(e) => Err(e),
    }
}

pub open spec fn views(v: Seq<Vec<char>>) -> Seq<Seq<char>> {
    Seq::new(v.len(), |i: int| v[i]@)
}

/// Whether the first non-whitespace character of `rest` is `}`, that is,
/// whether `rest` trimmed starts with `}`.
pub open spec fn opens_closed(rest: Seq<char>) -> bool {
    let k = scan(rest, non_spacing(), 0);
    k < rest.len() && rest[k] == '}'
}

/// `line` with `labels` inserted first in its label list.
pub open spec fn added(line: Seq<char>, labels: Seq<char>) -> Result<Seq<char>, ParseError> {
    if labels.len() == 0 {
        Ok(line)
    } else {
        let i = scan(line, is_char('{'), 0);
        if i >= line.len() {
            Err(ParseError::NoLabels)
        } else {
            let rest = line.subrange(i + 1, line.len() as int);
            let sep = if opens_closed(rest) {
                Seq::empty()
            } else {
                seq![',']
            };
            Ok(line.subrange(0, i + 1) + labels + sep + rest)
        }
    }
}

/// The key of a label: what stands before its last `=`.
pub open spec fn label_key(label: Seq<char>) -> Seq<char> {
    label.subrange(0, rscan(label, '=', label.len() as int))
}

/// The labels whose key is not in `drop`, in order; `None` when one of them
/// has no `=`.
pub open spec fn kept_labels(labels: Seq<Seq<char>>, drop: Seq<Seq<char>>) -> Option<
    Seq<Seq<char>>,
>
    decreases labels.len(),
{
    if labels.len() == 0 {
        Some(Seq::empty())
    } else {
        match kept_labels(labels.drop_last(), drop) {
            None => None,
            Some(k) => {
                let l = labels.last();
                if rscan(l, '=', l.len() as int) < 0 {
                    None
                } else if drop.contains(label_key(l)) {
                    Some(k)
                } else {
                    Some(k.push(l))
                }
            },
        }
    }
}

/// The kept labels of a label list; an empty list holds no label.
pub open spec fn kept_list(chunk: Seq<char>, drop: Seq<Seq<char>>) -> Option<Seq<Seq<char>>> {
    if chunk.len() == 0 {
        Some(Seq::empty())
    } else {
        kept_labels(split_on(chunk, ','), drop)
    }
}

/// `line` without the labels whose key is in `drop`.
pub open spec fn removed(line: Seq<char>, drop: Seq<Seq<char>>) -> Result<Seq<char>, ParseError> {
    if drop.len() == 0 {
        Ok(line)
    } else {
        let i = scan(line, is_char('{'), 0);
        if i >= line.len() {
            Err(ParseError::NoLabels)
        } else {
            let rest = line.subrange(i + 1, line.len() as int);
            let j = scan_pair(rest, '}', ' ', 0);
            if j >= rest.len() {
                Err(ParseError::NoEnd)
            } else {
                match kept_list(rest.subrange(0, j), drop) {
                    None => Err(ParseError::NoKey),
                    Some(kept) => Ok(
                        line.subrange(0, i + 1) + join_with(kept, ',') + seq!['}', ' ']
                            + rest.subrange(j + 2, rest.len() as int),
                    ),
                }
            }
        }
    }
}

/// The text `k1=v1,k2=v2,...` of a list of labels.
pub open spec fn label_text(pairs: Seq<(Seq<char>, Seq<char>)>) -> Seq<char> {
    join_with(pairs.map_values(|p: (Seq<char>, Seq<char>)| p.0 + seq!['='] + p.1), ',')
}

pub open spec fn label_keys(pairs: Seq<(Seq<char>, Seq<char>)>) -> Seq<Seq<char>> {
    pairs.map_values(|p: (Seq<char>, Seq<char>)| p.0)
}

pub open spec fn pair_texts(pairs: Seq<(String, String)>) -> Seq<(Seq<char>, Seq<char>)> {
    pairs.map_values(|p: (String, String)| (p.0@, p.1@))
}

/// Inserts `labels` (already written `k=v,...`) first in the label list of
/// `line`.
pub fn add_labels(line: &str, labels: &str) -> (r: Result<String, ParseError>)
    ensures
        text_result(r) == added(line@, labels@),
{
    if labels.is_empty() {
        return Ok(line.to_owned());
    }
    let s = chars_of(line);
    let i = find_char(&s, '{', 0);
    if i >= s.len() {
        return Err(ParseError::NoLabels);
    }
    let rest = slice(&s, i + 1, s.len());
    let k = skip_spaces(&rest, 0);
    let mut out = slice(&s, 0, i + 1);
    let l = chars_of(labels);
    extend(&mut out, &l);
    if !(k < rest.len() && rest[k] == '}') {
        out.push(',');
    }
    extend(&mut out, &rest);
    proof {
        let ghost sep = if opens_closed(rest@) {
            Seq::<char>::empty()
        } else {
            seq![',']
        };
        assert(out@ =~= s@.subrange(0, i + 1) + l@ + sep + rest@);
    }
    Ok(string_from_chars(&out))
}

/// Whether `a` and `b` hold the same characters.
fn same_chars(a: &Vec<char>, b: &Vec<char>) -> (r: bool)
    ensures
        r == (a@ == b@),
{
    if a.len() != b.len() {
        return false;
    }
    let mut i: usize = 0;
    while i < a.len()
        invariant
            a.len() == b.len(),
            0 <= i <= a.len(),
            forall|k: int| 0 <= k < i ==> a@[k] == b@[k],
        decreases a.len() - i,
    {
        if a[i] != b[i] {
            return false;
        }
        i = i + 1;
    }
    assert(a@ =~= b@);
    true
}

/// Whether `key` is one of `keys`.
fn contains_key(keys: &Vec<Vec<char>>, key: &Vec<char>) -> (r: bool)
    ensures
        r == views(keys@).contains(key@),
{
    let mut i: usize = 0;
    while i < keys.len()
        invariant
            0 <= i <= keys.len(),
            forall|k: int| 0 <= k < i ==> views(keys@)[k] != key@,
        decreases keys.len() - i,
    {
        if same_chars(&keys[i], key) {
            assert(views(keys@)[i as int] == key@);
            return true;
        }
        i = i + 1;
    }
    false
}

/// Files one label into `kept` unless its key is to be dropped.
fn keep_label(kept: &mut Vec<Vec<char>>, label: Vec<char>, drop: &Vec<Vec<char>>) -> (ok: bool)
    ensures
        ok == (rscan(label@, '=', label@.len() as int) >= 0),
        ok ==> views(final(kept)@) == (if views(drop@).contains(label_key(label@)) {
            views(old(kept)@)
        } else {
            views(old(kept)@).push(label@)
        }),
{
    match rfind_char(&label, '=', label.len()) {
        None => false,
        Some(e) => {
            proof {
                lemma_rscan(label@, '=', label@.len() as int);
            }
            let key = slice(&label, 0, e);
            if !contains_key(drop, &key) {
                let ghost lv = label@;
                kept.push(label);
                assert(views(kept@) =~= views(old(kept)@).push(lv));
            }
            true
        },
    }
}

proof fn lemma_split_step(s: Seq<char>, i: int)
    requires
        0 <= i < s.len(),
    ensures
        split_on(s.subrange(0, i + 1), ',') == (if s[i] == ',' {
            split_on(s.subrange(0, i), ',').push(Seq::empty())
        } else {
            let w = split_on(s.subrange(0, i), ',');
            w.update(w.len() - 1, w.last().push(s[i]))
        }),
{
    assert(s.subrange(0, i + 1).drop_last() =~= s.subrange(0, i));
}

proof fn lemma_split_nonempty(s: Seq<char>)
    ensures
        split_on(s, ',').len() >= 1,
    decreases s.len(),
{
    if s.len() > 0 {
        lemma_split_nonempty(s.drop_last());
    }
}

/// The labels of `chunk` kept against `drop`.
fn keep_labels(chunk: &Vec<char>, drop: &Vec<Vec<char>>) -> (r: Option<Vec<Vec<char>>>)
    requires
        chunk.len() > 0,
    ensures
        match r {
            Some(k) => kept_labels(split_on(chunk@, ','), views(drop@)) == Some(views(k@)),
            None => kept_labels(split_on(chunk@, ','), views(drop@)) is None,
        },
{
    let mut kept: Vec<Vec<char>> = Vec::new();
    let mut current: Vec<char> = Vec::new();
    let ghost mut done: Seq<Seq<char>> = Seq::empty();
    let mut i: usize = 0;
    while i < chunk.len()
        invariant
            0 <= i <= chunk.len(),
            split_on(chunk@.subrange(0, i as int), ',') == done.push(current@),
            kept_labels(done, views(drop@)) == Some(views(kept@)),
        decreases chunk.len() - i,
    {
        proof {
            lemma_split_step(chunk@, i as int);
        }
        let c = chunk[i];
        if c == ',' {
            let label = current;
            current = Vec::new();
            let ghost lv = label@;
            let ok = keep_label(&mut kept, label, drop);
            if !ok {
                proof {
                    assert(done.push(lv).drop_last() =~= done);
                    assert(kept_labels(done.push(lv), views(drop@)) is None);
                    kept_labels_none_extends(done.push(lv), split_on(chunk@, ','), views(drop@), chunk@, i as int + 1);
                }
                return None;
            }
            proof {
                assert(done.push(lv).drop_last() =~= done);
                done = done.push(lv);
                assert(split_on(chunk@.subrange(0, i + 1), ',') =~= done.push(current@));
            }
        } else {
            current.push(c);
            proof {
                assert(split_on(chunk@.subrange(0, i + 1), ',') =~= done.push(current@));
            }
        }
        i = i + 1;
    }
    assert(chunk@.subrange(0, chunk.len() as int) =~= chunk@);
    let ghost lv = current@;
    let ok = keep_label(&mut kept, current, drop);
    proof {
        assert(done.push(lv).drop_last() =~= done);
    }
    if ok {
        Some(kept)
    } else {
        None
    }
}

/// Once some prefix of the pieces of `chunk` has an unkeyed label, the whole
/// list has one too.
proof fn kept_labels_none_extends(
    prefix: Seq<Seq<char>>,
    all: Seq<Seq<char>>,
    drop: Seq<Seq<char>>,
    chunk: Seq<char>,
    n: int,
)
    requires
        0 < n <= chunk.len(),
        chunk[n - 1] == ',',
        all == split_on(chunk, ','),
        split_on(chunk.subrange(0, n), ',') == prefix.push(Seq::empty()),
        kept_labels(prefix, drop) is None,
    ensures
        kept_labels(all, drop) is None,
{
    lemma_split_prefix(chunk, n);
    assert(prefix.push(Seq::empty()).drop_last() =~= prefix);
    lemma_kept_none_prefix(prefix, all, drop);
}

/// The pieces of a prefix ending in a cut are, but for the last empty one,
/// a prefix of the pieces of the whole.
proof fn lemma_split_prefix(s: Seq<char>, n: int)
    requires
        0 < n <= s.len(),
        s[n - 1] == ',',
    ensures
        ({
            let p = split_on(s.subrange(0, n), ',');
            let w = split_on(s, ',');
            p.len() <= w.len() && p.drop_last() == w.subrange(0, p.len() - 1)
        }),
    decreases s.len(),
{
    lemma_split_nonempty(s.subrange(0, n));
    if n == s.len() {
        assert(s.subrange(0, n) =~= s);
        assert(split_on(s, ',').drop_last() =~= split_on(s, ',').subrange(
            0,
            split_on(s, ',').len() - 1,
        ));
    } else {
        lemma_split_prefix(s.drop_last(), n);
        assert(s.drop_last().subrange(0, n) =~= s.subrange(0, n));
        lemma_split_nonempty(s.drop_last());
        let p = split_on(s.subrange(0, n), ',');
        let w0 = split_on(s.drop_last(), ',');
        let w = split_on(s, ',');
        assert(p.drop_last() =~= w.subrange(0, p.len() - 1));
    }
}

proof fn lemma_kept_none_prefix(prefix: Seq<Seq<char>>, all: Seq<Seq<char>>, drop: Seq<Seq<char>>)
    requires
        prefix.len() <= all.len(),
        prefix == all.subrange(0, prefix.len() as int),
        kept_labels(prefix, drop) is None,
    ensures
        kept_labels(all, drop) is None,
    decreases all.len(),
{
    if all.len() > prefix.len() {
        assert(all.drop_last().subrange(0, prefix.len() as int) =~= prefix);
        lemma_kept_none_prefix(prefix, all.drop_last(), drop);
    } else {
        assert(prefix =~= all);
    }
}

/// The pieces joined with `,`.
fn join_commas(pieces: &Vec<Vec<char>>) -> (r: Vec<char>)
    ensures
        r@ == join_with(views(pieces@), ','),
{
    let mut out: Vec<char> = Vec::new();
    let mut k: usize = 0;
    while k < pieces.len()
        invariant
            0 <= k <= pieces.len(),
            out@ == join_with(views(pieces@).subrange(0, k as int), ','),
        decreases pieces.len() - k,
    {
        let ghost before = views(pieces@).subrange(0, k as int);
        assert(views(pieces@).subrange(0, k + 1).drop_last() =~= before);
        if k > 0 {
            out.push(',');
        }
        extend(&mut out, &pieces[k]);
        k = k + 1;
    }
    assert(views(pieces@).subrange(0, pieces.len() as int) =~= views(pieces@));
    out
}

/// Removes from the label list of `line` each label whose key (what stands
/// before its last `=`) is one of `labels_to_drop`.
pub fn remove_labels(line: &str, labels_to_drop: &[String]) -> (r: Result<String, ParseError>)
    ensures
        text_result(r) == removed(line@, strings_view(labels_to_drop@)),
{
    if labels_to_drop.len() == 0 {
        return Ok(line.to_owned());
    }
    let mut drop: Vec<Vec<char>> = Vec::new();
    let mut d: usize = 0;
    while d < labels_to_drop.len()
        invariant
            0 <= d <= labels_to_drop@.len(),
            drop@.len() == d,
            forall|k: int| 0 <= k < d ==> (#[trigger] drop@[k])@ == labels_to_drop@[k]@,
        decreases labels_to_drop.len() - d,
    {
        let cs = chars_of(labels_to_drop[d].as_str());
        drop.push(cs);
        d = d + 1;
    }
    assert(views(drop@) =~= strings_view(labels_to_drop@));
    let s = chars_of(line);
    let i = find_char(&s, '{', 0);
    if i >= s.len() {
        return Err(ParseError::NoLabels);
    }
    let rest = slice(&s, i + 1, s.len());
    let j = find_pair(&rest, '}', ' ', 0);
    if j >= rest.len() {
        return Err(ParseError::NoEnd);
    }
    proof {
        lemma_scan_pair(rest@, '}', ' ', 0);
    }
    let chunk = slice(&rest, 0, j);
    let kept = if chunk.len() == 0 {
        Vec::new()
    } else {
        match keep_labels(&chunk, &drop) {
            Some(k) => k,
            None => {
                return Err(ParseError::NoKey);
            },
        }
    };
    assert(kept_list(chunk@, views(drop@)) == Some(views(kept@)));
    let mut out = slice(&s, 0, i + 1);
    let joined = join_commas(&kept);
    extend(&mut out, &joined);
    out.push('}');
    out.push(' ');
    let value = slice(&rest, j + 2, rest.len());
    extend(&mut out, &value);
    assert(out@ =~= s@.subrange(0, i + 1) + join_with(views(kept@), ',') + seq!['}', ' ']
        + rest@.subrange(j + 2, rest@.len() as int));
    Ok(string_from_chars(&out))
}

/// A label key or value that holds no `,`, `=` or `}`.
pub open spec fn plain_label(t: Seq<char>) -> bool {
    forall|k: int| 0 <= k < t.len() ==> #[trigger] t[k] != ',' && t[k] != '=' && t[k] != '}'
}

/// Whether the label list of `line` is non-empty but starts, after
/// whitespace, with `}`: inserting labels there glues the first new label to
/// the old list.
pub open spec fn merges_labels(line: Seq<char>) -> bool {
    let i = scan(line, is_char('{'), 0);
    let rest = line.subrange(i + 1, line.len() as int);
    let j = scan_pair(rest, '}', ' ', 0);
    i < line.len() && opens_closed(rest) && 0 < j < rest.len()
}

proof fn lemma_split_concat(a: Seq<char>, b: Seq<char>)
    ensures
        split_on(a + seq![','] + b, ',') == split_on(a, ',') + split_on(b, ','),
    decreases b.len(),
{
    if b.len() == 0 {
        assert((a + seq![',']).drop_last() =~= a);
        assert(a + seq![','] + b =~= a + seq![',']);
        assert(split_on(a, ',').push(Seq::empty()) =~= split_on(a, ',') + split_on(b, ','));
    } else {
        let b0 = b.drop_last();
        lemma_split_concat(a, b0);
        assert((a + seq![','] + b).drop_last() =~= a + seq![','] + b0);
        lemma_split_nonempty(b0);
        let wa = split_on(a, ',');
        let wb = split_on(b0, ',');
        if b.last() == ',' {
            assert((wa + wb).push(Seq::empty()) =~= wa + wb.push(Seq::empty()));
        } else {
            assert((wa + wb).update((wa + wb).len() - 1, (wa + wb).last().push(b.last())) =~= wa
                + wb.update(wb.len() - 1, wb.last().push(b.last())));
        }
    }
}

proof fn lemma_split_plain(s: Seq<char>)
    requires
        forall|k: int| 0 <= k < s.len() ==> #[trigger] s[k] != ',',
    ensures
        split_on(s, ',') == seq![s],
    decreases s.len(),
{
    if s.len() > 0 {
        lemma_split_plain(s.drop_last());
        assert(s.drop_last().push(s.last()) =~= s);
        assert(seq![s.drop_last()].update(0, s.drop_last().push(s.last())) =~= seq![s]);
    } else {
        assert(s =~= Seq::<char>::empty());
    }
}

proof fn lemma_split_join(p: Seq<Seq<char>>)
    requires
        p.len() > 0,
        forall|i: int, k: int| 0 <= i < p.len() && 0 <= k < p[i].len() ==> #[trigger] p[i][k] != ',',
    ensures
        split_on(join_with(p, ','), ',') == p,
    decreases p.len(),
{
    if p.len() == 1 {
        assert forall|k: int| 0 <= k < p[0].len() implies #[trigger] p[0][k] != ',' by {
            assert(p[0][k] != ',');
        }
        lemma_split_plain(p[0]);
        assert(seq![p[0]] =~= p);
    } else {
        let q = p.drop_last();
        assert forall|i: int, k: int| 0 <= i < q.len() && 0 <= k < q[i].len() implies #[trigger] q[i][k]
            != ',' by {
            assert(q[i] == p[i]);
        }
        lemma_split_join(q);
        assert(join_with(q, ',').push(',') + p.last() =~= join_with(q, ',') + seq![','] + p.last());
        lemma_split_concat(join_with(q, ','), p.last());
        assert forall|k: int| 0 <= k < p.last().len() implies #[trigger] p.last()[k] != ',' by {
            assert(p[p.len() - 1][k] != ',');
        }
        lemma_split_plain(p.last());
        assert(q + seq![p.last()] =~= p);
    }
}

proof fn lemma_join_avoids(p: Seq<Seq<char>>, c: char)
    requires
        c != ',',
        forall|i: int, k: int| 0 <= i < p.len() && 0 <= k < p[i].len() ==> #[trigger] p[i][k] != c,
    ensures
        forall|k: int| 0 <= k < join_with(p, ',').len() ==> #[trigger] join_with(p, ',')[k] != c,
    decreases p.len(),
{
    if p.len() > 1 {
        let q = p.drop_last();
        assert forall|i: int, k: int| 0 <= i < q.len() && 0 <= k < q[i].len() implies #[trigger] q[i][k]
            != c by {
            assert(q[i] == p[i]);
        }
        lemma_join_avoids(q, c);
        let j = join_with(p, ',');
        let jq = join_with(q, ',');
        assert forall|k: int| 0 <= k < j.len() implies #[trigger] j[k] != c by {
            if k < jq.len() {
                assert(j[k] == jq[k]);
            } else if k == jq.len() {
                assert(j[k] == ',');
            } else {
                assert(j[k] == p[p.len() - 1][k - jq.len() - 1]);
            }
        }
    } else if p.len() == 1 {
        assert forall|k: int| 0 <= k < join_with(p, ',').len() implies #[trigger] join_with(
            p,
            ',',
        )[k] != c by {
            assert(p[0][k] != c);
        }
    }
}

proof fn lemma_kept_concat(p: Seq<Seq<char>>, q: Seq<Seq<char>>, drop: Seq<Seq<char>>)
    requires
        kept_labels(p, drop) == Some(Seq::<Seq<char>>::empty()),
    ensures
        kept_labels(p + q, drop) == kept_labels(q, drop),
    decreases q.len(),
{
    if q.len() == 0 {
        assert(p + q =~= p);
    } else {
        lemma_kept_concat(p, q.drop_last(), drop);
        assert((p + q).drop_last() =~= p + q.drop_last());
        assert((p + q).last() == q.last());
    }
}

/// The label texts `k=v` of `pairs`, each of whose key is in `drop`, are all
/// dropped.
proof fn lemma_kept_none_left(pieces: Seq<Seq<char>>, pairs: Seq<(Seq<char>, Seq<char>)>)
    requires
        pieces.len() <= pairs.len(),
        forall|i: int| 0 <= i < pieces.len() ==> #[trigger] pieces[i] == pairs[i].0 + seq!['=']
            + pairs[i].1,
        forall|i: int| 0 <= i < pairs.len() ==> plain_label(#[trigger] pairs[i].1),
    ensures
        kept_labels(pieces, label_keys(pairs)) == Some(Seq::<Seq<char>>::empty()),
    decreases pieces.len(),
{
    if pieces.len() > 0 {
        let n = pieces.len() - 1;
        lemma_kept_none_left(pieces.drop_last(), pairs);
        let l = pieces.last();
        let k = pairs[n].0;
        let v = pairs[n].1;
        assert(l == k + seq!['='] + v);
        assert(plain_label(v));
        assert forall|m: int| k.len() < m < l.len() implies #[trigger] l[m] != '=' by {
            assert(l[m] == v[m - k.len() - 1]);
        }
        lemma_rscan_unique(l, '=', l.len() as int, k.len() as int);
        assert(label_key(l) =~= k);
        assert(label_keys(pairs)[n] == k);
    }
}

/// Removing the keys of labels just inserted gives the line back as
/// `remove_labels` writes it: `remove(add(l, L), keys(L)) == remove(l, keys(L))`.
/// Keys and values hold no `,`, `=` or `}`; a line whose non-empty label list
/// starts with `}` is left out, since there the first new label is glued to it.
pub proof fn lemma_remove_after_add(line: Seq<char>, pairs: Seq<(Seq<char>, Seq<char>)>)
    requires
        forall|i: int|
            0 <= i < pairs.len() ==> plain_label(#[trigger] pairs[i].0) && plain_label(pairs[i].1),
        !merges_labels(line),
    ensures
        added(line, label_text(pairs)) matches Ok(a) ==> removed(a, label_keys(pairs)) == removed(
            line,
            label_keys(pairs),
        ),
{
    let t = label_text(pairs);
    let keys = label_keys(pairs);
    let pieces = pairs.map_values(|p: (Seq<char>, Seq<char>)| p.0 + seq!['='] + p.1);
    if pairs.len() == 0 {
        assert(t =~= Seq::<char>::empty());
        assert(keys =~= Seq::<Seq<char>>::empty());
        return;
    }
    let i = scan(line, is_char('{'), 0);
    lemma_scan(line, is_char('{'), 0);
    if i >= line.len() {
        return;
    }
    assert forall|a: int, k: int| 0 <= a < pieces.len() && 0 <= k < pieces[a].len() implies #[trigger] pieces[a][k]
        != ',' && pieces[a][k] != '}' by {
        let (pk, pv) = pairs[a];
        assert(plain_label(pk) && plain_label(pv));
        if k < pk.len() {
            assert(pieces[a][k] == pk[k]);
        } else if k > pk.len() {
            assert(pieces[a][k] == pv[k - pk.len() - 1]);
        }
    }
    lemma_join_avoids(pieces, '}');
    lemma_split_join(pieces);
    assert forall|k: int| 0 <= k < pairs.len() implies plain_label(#[trigger] pairs[k].1) by {
        assert(plain_label(pairs[k].0));
    }
    lemma_kept_none_left(pieces, pairs);
    assert(t.len() > 0) by {
        if pieces.len() == 1 {
        } else {
            assert(t == join_with(pieces.drop_last(), ',').push(',') + pieces.last());
        }
    }
    let rest = line.subrange(i + 1, line.len() as int);
    let sep: Seq<char> = if opens_closed(rest) {
        Seq::empty()
    } else {
        seq![',']
    };
    let a = line.subrange(0, i + 1) + t + sep + rest;
    assert(added(line, t) == Ok::<Seq<char>, ParseError>(a));
    // The first `{` of the new line is the old one.
    assert forall|k: int| 0 <= k < i implies !(#[trigger] is_char('{')(a[k])) by {
        assert(a[k] == line[k]);
        assert(!is_char('{')(line[k]));
    }
    assert(a[i] == line[i]);
    lemma_scan_unique(a, is_char('{'), 0, i);
    let rest_a = a.subrange(i + 1, a.len() as int);
    assert(rest_a =~= t + sep + rest);
    let off = t.len() + sep.len();
    let j = scan_pair(rest, '}', ' ', 0);
    lemma_scan_pair(rest, '}', ' ', 0);
    let ja = if j < rest.len() {
        off + j
    } else {
        rest_a.len() as int
    };
    assert forall|k: int| 0 <= k < ja && k + 1 < rest_a.len() implies !(#[trigger] rest_a[k] == '}'
        && rest_a[k + 1] == ' ') by {
        if k < t.len() {
            assert(rest_a[k] == t[k]);
        } else if k < off {
            assert(rest_a[k] == ',');
        } else {
            assert(rest_a[k] == rest[k - off]);
            assert(rest_a[k + 1] == rest[k + 1 - off]);
        }
    }
    if j < rest.len() {
        assert(rest_a[ja] == rest[j]);
        assert(rest_a[ja + 1] == rest[j + 1]);
    }
    lemma_scan_pair_unique(rest_a, '}', ' ', 0, ja);
    if j >= rest.len() {
        return;
    }
    let chunk = rest.subrange(0, j);
    let chunk_a = rest_a.subrange(0, ja);
    assert(rest_a.subrange(ja + 2, rest_a.len() as int) =~= rest.subrange(j + 2, rest.len() as int));
    assert(a.subrange(0, i + 1) =~= line.subrange(0, i + 1));
    if opens_closed(rest) {
        assert(j == 0);
        assert(chunk_a =~= t);
        assert(chunk =~= Seq::<char>::empty());
    } else {
        if j == 0 {
            lemma_scan(rest, non_spacing(), 0);
            assert(non_spacing()(rest[0]));
            lemma_scan_unique(rest, non_spacing(), 0, 0);
        }
        assert(chunk_a =~= t + seq![','] + chunk);
        lemma_split_concat(t, chunk);
        lemma_kept_concat(pieces, split_on(chunk, ','), keys);
    }
}

/// The round trip on a canonical line `c{ls} val`: a class without `{`, a
/// label list without `}` that does not start with whitespace, then `} ` and
/// the value. Removing the keys of labels just inserted gives the line back
/// as `remove_labels` writes it.
pub proof fn lemma_remove_after_add_canonical(
    c: Seq<char>,
    ls: Seq<char>,
    val: Seq<char>,
    pairs: Seq<(Seq<char>, Seq<char>)>,
)
    requires
        forall|i: int|
            0 <= i < pairs.len() ==> plain_label(#[trigger] pairs[i].0) && plain_label(pairs[i].1),
        forall|k: int| 0 <= k < c.len() ==> #[trigger] c[k] != '{',
        forall|k: int| 0 <= k < ls.len() ==> #[trigger] ls[k] != '}',
        ls.len() > 0 ==> !is_space(ls[0]),
    ensures
        ({
            let line = c + seq!['{'] + ls + seq!['}', ' '] + val;
            added(line, label_text(pairs)) matches Ok(a) ==> removed(a, label_keys(pairs))
                == removed(line, label_keys(pairs))
        }),
{
    let line = c + seq!['{'] + ls + seq!['}', ' '] + val;
    assert forall|k: int| 0 <= k < c.len() implies !(#[trigger] is_char('{')(line[k])) by {
        assert(line[k] == c[k]);
    }
    assert(line[c.len() as int] == '{');
    lemma_scan_unique(line, is_char('{'), 0, c.len() as int);
    let rest = line.subrange(c.len() as int + 1, line.len() as int);
    assert(rest =~= ls + seq!['}', ' '] + val);
    if ls.len() == 0 {
        assert(rest[0] == '}' && rest[1] == ' ');
        lemma_scan_pair_unique(rest, '}', ' ', 0, 0);
    } else {
        assert(rest[0] == ls[0]);
        assert(non_spacing()(rest[0]));
        lemma_scan_unique(rest, non_spacing(), 0, 0);
    }
    assert(!merges_labels(line));
    lemma_remove_after_add(line, pairs);
}

} // verus!
