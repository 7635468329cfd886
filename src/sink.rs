//! The scan side of a sink: on each scan of the sink spool directory, files
//! older than the time to live are discarded, new files are admitted to the
//! queue in name order, and the newest queued files are shed while the spool
//! is larger than allowed.
use vstd::prelude::*;
use vstd::seq_lib::to_multiset_insert;
use crate::spool::{file_paths, in_paths, unseen, SeenSet, SpoolFile, SpoolQueue};
use crate::text::{chars_of, strings_view};

verus! {

/// What a sink keeps in its spool.
pub struct SinkPolicy {
    /// The sink's name; its spool files are named `<name>-...`.
    pub name: String,
    /// How long a file may wait, in milliseconds since its modification.
    pub ttl_ms: u64,
    /// How many bytes the sink's spool files may take.
    pub max_size: u64,
}

pub open spec fn starts_with(s: Seq<char>, p: Seq<char>) -> bool {
    p.len() <= s.len() && s.subrange(0, p.len() as int) == p
}

/// Whether `f` belongs to the sink called `sink`.
pub open spec fn owned(f: SpoolFile, sink: Seq<char>) -> bool {
    starts_with(f.name@, sink.push('-'))
}

/// How long ago `f` was modified; a modification in the future counts as now.
pub open spec fn age_ms(f: SpoolFile, now_ms: u64) -> int {
    if now_ms >= f.modified_ms {
        now_ms - f.modified_ms
    } else {
        0
    }
}

pub open spec fn expired_file(f: SpoolFile, p: SinkPolicy, now_ms: u64) -> bool {
    owned(f, p.name@) && age_ms(f, now_ms) > p.ttl_ms
}

pub open spec fn fresh_file(f: SpoolFile, p: SinkPolicy, now_ms: u64) -> bool {
    owned(f, p.name@) && age_ms(f, now_ms) <= p.ttl_ms
}

pub open spec fn is_expired(p: SinkPolicy, now_ms: u64) -> spec_fn(SpoolFile) -> bool {
    |f: SpoolFile| expired_file(f, p, now_ms)
}

pub open spec fn is_fresh(p: SinkPolicy, now_ms: u64) -> spec_fn(SpoolFile) -> bool {
    |f: SpoolFile| fresh_file(f, p, now_ms)
}

pub open spec fn total_size(v: Seq<SpoolFile>) -> int
    decreases v.len(),
{
    if v.len() == 0 {
        0
    } else {
        total_size(v.drop_last()) + v.last().size
    }
}

/// The size of the first file of `v` at `path`, or 0.
pub open spec fn size_at(v: Seq<SpoolFile>, path: Seq<char>) -> int
    decreases v.len(),
{
    if v.len() == 0 {
        0
    } else if v[0].path@ == path {
        v[0].size as int
    } else {
        size_at(v.drop_first(), path)
    }
}

/// What remains of `total` bytes once the files at `shed` are gone (never
/// below zero).
pub open spec fn after_shed(total: int, v: Seq<SpoolFile>, shed: Seq<Seq<char>>) -> int
    decreases shed.len(),
{
    if shed.len() == 0 {
        total
    } else {
        let t = after_shed(total, v, shed.drop_last());
        let s = size_at(v, shed.last());
        if t >= s {
            t - s
        } else {
            0
        }
    }
}

/// Lexicographic order on texts, by code point.
pub open spec fn text_le_from(a: Seq<char>, b: Seq<char>, i: int) -> bool
    decreases a.len() - i,
{
    if i >= a.len() {
        true
    } else if i >= b.len() {
        false
    } else if (a[i] as u32) != (b[i] as u32) {
        (a[i] as u32) < (b[i] as u32)
    } else {
        text_le_from(a, b, i + 1)
    }
}

pub open spec fn text_le(a: Seq<char>, b: Seq<char>) -> bool {
    text_le_from(a, b, 0)
}

pub open spec fn ascending(s: Seq<Seq<char>>) -> bool {
    forall|i: int| 0 <= i < s.len() - 1 ==> text_le(#[trigger] s[i], s[i + 1])
}

proof fn lemma_text_le_total(a: Seq<char>, b: Seq<char>, i: int)
    requires
        0 <= i,
    ensures
        text_le_from(a, b, i) || text_le_from(b, a, i),
    decreases a.len() - i,
{
    if i < a.len() && i < b.len() && (a[i] as u32) == (b[i] as u32) {
        lemma_text_le_total(a, b, i + 1);
    }
}

/// Whether `a` comes before `b`, or equals it, in text order.
fn text_le_exec(a: &str, b: &str) -> (r: bool)
    ensures
        r == text_le(a@, b@),
{
    let x = chars_of(a);
    let y = chars_of(b);
    let mut i: usize = 0;
    while i < x.len() && i < y.len() && (x[i] as u32) == (y[i] as u32)
        invariant
            x@ == a@,
            y@ == b@,
            0 <= i <= x.len(),
            i <= y.len(),
            text_le_from(x@, y@, i as int) == text_le_from(x@, y@, 0),
        decreases x.len() - i,
    {
        i = i + 1;
    }
    if i >= x.len() {
        true
    } else if i >= y.len() {
        false
    } else {
        (x[i] as u32) < (y[i] as u32)
    }
}

/// The paths in ascending text order.
fn sort_paths(v: Vec<String>) -> (r: Vec<String>)
    ensures
        ascending(strings_view(r@)),
        strings_view(r@).to_multiset() == strings_view(v@).to_multiset(),
{
    let mut r: Vec<String> = Vec::new();
    let mut i: usize = 0;
    assert(strings_view(r@) =~= strings_view(v@).subrange(0, 0));
    while i < v.len()
        invariant
            0 <= i <= v.len(),
            ascending(strings_view(r@)),
            strings_view(r@).to_multiset() == strings_view(v@).subrange(0, i as int).to_multiset(),
        decreases v.len() - i,
    {
        let x = v[i].clone();
        let mut k: usize = 0;
        while k < r.len() && text_le_exec(r[k].as_str(), x.as_str())
            invariant
                0 <= k <= r.len(),
                forall|j: int| 0 <= j < k ==> text_le(#[trigger] strings_view(r@)[j], x@),
            decreases r.len() - k,
        {
            k = k + 1;
        }
        let ghost before = strings_view(r@);
        proof {
            if k < r.len() {
                lemma_text_le_total(before[k as int], x@, 0);
            }
        }
        r.insert(k, x);
        proof {
            assert(strings_view(r@) =~= before.insert(k as int, x@));
            to_multiset_insert(before, k as int, x@);
            assert(strings_view(v@).subrange(0, i + 1) =~= strings_view(v@).subrange(0, i as int).push(
                x@,
            ));
            broadcast use vstd::seq_lib::group_to_multiset_ensures;

            assert forall|j: int| 0 <= j < strings_view(r@).len() - 1 implies text_le(
                #[trigger] strings_view(r@)[j],
                strings_view(r@)[j + 1],
            ) by {
                if j + 1 < k {
                    assert(strings_view(r@)[j] == before[j]);
                    assert(strings_view(r@)[j + 1] == before[j + 1]);
                } else if j + 1 == k {
                    assert(strings_view(r@)[j] == before[j]);
                } else if j == k {
                    assert(strings_view(r@)[j + 1] == before[j]);
                } else {
                    assert(strings_view(r@)[j] == before[j - 1]);
                    assert(strings_view(r@)[j + 1] == before[j]);
                }
            }
        }
        i = i + 1;
    }
    assert(strings_view(v@).subrange(0, v.len() as int) =~= strings_view(v@));
    r
}

/// The files to remove after a scan of a sink spool.
pub struct Eviction {
    /// Files older than the time to live; never queued.
    pub expired: Vec<String>,
    /// Queued files shed, newest first, because the spool was too large.
    pub shed: Vec<String>,
}

/// The scanner of one sink's spool directory.
pub struct SinkScanner {
    pub policy: SinkPolicy,
    /// The sink's files found by the previous scan, but those expired.
    pub seen: SeenSet,
}

impl SinkScanner {
    pub fn new(policy: SinkPolicy) -> (r: SinkScanner)
        ensures
            r.policy == policy,
            r.seen@ == Seq::<Seq<char>>::empty(),
    {
        SinkScanner { policy, seen: SeenSet::new() }
    }

    /// Handles one scan of the spool directory, which found `entries` at
    /// `now_ms`.
    ///
    /// The sink's files older than its time to live are returned in
    /// `expired` and leave the queue. Queued paths no longer found leave it
    /// too. The sink's other files not seen before join the back of the
    /// queue in ascending path order (the sink's files share one directory,
    /// so this is file name order). Then, while the sink's files hold more
    /// than `max_size` bytes, the newest queued path is shed.
    pub fn tick(&mut self, queue: &mut SpoolQueue, entries: &Vec<SpoolFile>, now_ms: u64) -> (r:
        Eviction)
        ensures
            final(self).policy == old(self).policy,
            ({
                let p = old(self).policy;
                let fresh = entries@.filter(is_fresh(p, now_ms));
                let kept = old(queue)@.filter(in_paths(file_paths(fresh)));
                let added = strings_view(r.shed@).reverse();
                &&& strings_view(r.expired@) == file_paths(
                    entries@.filter(is_expired(p, now_ms)),
                )
                &&& final(self).seen@ == file_paths(fresh)
                &&& forall|q: Seq<char>| #[trigger]
                    final(queue)@.contains(q) ==> file_paths(fresh).contains(q)
                &&& exists|new: Seq<Seq<char>>|
                    #![trigger new.to_multiset()]
                    {
                        &&& ascending(new)
                        &&& new.to_multiset() == unseen(file_paths(fresh), old(self).seen@).to_multiset()
                        &&& final(queue)@ + strings_view(r.shed@).reverse() == kept + new
                    }
                &&& after_shed(total_size(fresh), fresh, strings_view(r.shed@)) <= p.max_size
                    || final(queue)@.len() == 0
                &&& forall|k: int|
                    0 <= k < r.shed@.len() ==> after_shed(
                        total_size(fresh),
                        fresh,
                        #[trigger] strings_view(r.shed@).subrange(0, k),
                    ) > p.max_size
            }),
    {
        let ghost p = self.policy;
        let mut expired: Vec<String> = Vec::new();
        let mut fresh: Vec<SpoolFile> = Vec::new();
        let mut prefix = chars_of(self.policy.name.as_str());
        prefix.push('-');
        let mut i: usize = 0;
        while i < entries.len()
            invariant
                0 <= i <= entries.len(),
                self.policy == p,
                prefix@ == p.name@.push('-'),
                strings_view(expired@) == file_paths(
                    entries@.subrange(0, i as int).filter(is_expired(p, now_ms)),
                ),
                fresh@ == entries@.subrange(0, i as int).filter(is_fresh(p, now_ms)),
            decreases entries.len() - i,
        {
            let ghost pre = entries@.subrange(0, i as int);
            let f = &entries[i];
            assert(entries@.subrange(0, i + 1) =~= pre.push(*f));
            reveal(Seq::filter);
            assert(pre.push(*f).drop_last() =~= pre);
            let name = chars_of(f.name.as_str());
            let mut own = prefix.len() <= name.len();
            let mut k: usize = 0;
            while own && k < prefix.len()
                invariant
                    0 <= k <= prefix.len(),
                    own ==> k <= prefix.len(),
                    own ==> prefix.len() <= name.len(),
                    own ==> forall|j: int| 0 <= j < k ==> name@[j] == prefix@[j],
                    !own ==> !starts_with(name@, prefix@),
                decreases prefix.len() - k,
            {
                if name[k] != prefix[k] {
                    own = false;
                    assert(name@.subrange(0, prefix@.len() as int)[k as int] != prefix@[k as int]);
                }
                k = k + 1;
            }
            proof {
                if own {
                    assert(name@.subrange(0, prefix@.len() as int) =~= prefix@);
                }
            }
            if own {
                let age: u64 = if now_ms >= f.modified_ms {
                    now_ms - f.modified_ms
                } else {
                    0
                };
                if age > self.policy.ttl_ms {
                    let ghost before = expired@;
                    expired.push(f.path.clone());
                    assert(strings_view(expired@) =~= strings_view(before).push(f.path@));
                    assert(file_paths(pre.push(*f).filter(is_expired(p, now_ms)))
                        =~= file_paths(pre.filter(is_expired(p, now_ms))).push(
                        f.path@,
                    ));
                } else {
                    let copy = SpoolFile {
                        path: f.path.clone(),
                        name: f.name.clone(),
                        size: f.size,
                        modified_ms: f.modified_ms,
                    };
                    assert(copy == *f);
                    fresh.push(copy);
                }
            }
            i = i + 1;
        }
        assert(entries@.subrange(0, entries.len() as int) =~= entries@);
        let ghost fv = fresh@;
        // The paths of the fresh files, and their total size.
        let mut fresh_paths: Vec<String> = Vec::new();
        let mut total: u128 = 0;
        let mut j: usize = 0;
        while j < fresh.len()
            invariant
                0 <= j <= fresh.len(),
                fresh@ == fv,
                strings_view(fresh_paths@) == file_paths(fv).subrange(0, j as int),
                total as int == total_size(fv.subrange(0, j as int)),
                total <= j * 18446744073709551615u128,
            decreases fresh.len() - j,
        {
            assert(fv.subrange(0, j + 1).drop_last() =~= fv.subrange(0, j as int));
            let ghost before = fresh_paths@;
            let item = fresh[j].path.clone();
            assert(item@ == fv[j as int].path@);
            fresh_paths.push(item);
            assert(strings_view(fresh_paths@) =~= strings_view(before).push(fv[j as int].path@));
            assert(strings_view(fresh_paths@) =~= file_paths(fv).subrange(0, j + 1));
            total = total + fresh[j].size as u128;
            j = j + 1;
        }
        assert(file_paths(fv).subrange(0, fv.len() as int) =~= file_paths(fv));
        assert(fv.subrange(0, fv.len() as int) =~= fv);
        queue.retain_in(&fresh_paths);
        let ghost kept = queue@;
        let new = self.seen.observe(&fresh_paths);
        let sorted = sort_paths(new);
        let mut n: usize = 0;
        while n < sorted.len()
            invariant
                0 <= n <= sorted.len(),
                queue@ == kept + strings_view(sorted@).subrange(0, n as int),
            decreases sorted.len() - n,
        {
            queue.push_back(sorted[n].clone());
            assert(kept + strings_view(sorted@).subrange(0, n + 1) =~= (kept + strings_view(
                sorted@,
            ).subrange(0, n as int)).push(sorted@[n as int]@));
            n = n + 1;
        }
        assert(strings_view(sorted@).subrange(0, sorted.len() as int) =~= strings_view(sorted@));
        let ghost admitted = queue@;
        proof {
            assert forall|q: Seq<char>| #[trigger] admitted.contains(q) implies file_paths(
                fv,
            ).contains(q) by {
                let k = choose|k: int| 0 <= k < admitted.len() && admitted[k] == q;
                if k < kept.len() {
                    assert(kept[k] == q);
                    old(queue)@.lemma_filter_pred(in_paths(file_paths(fv)), k);
                } else {
                    broadcast use vstd::seq_lib::group_to_multiset_ensures;
                    assert(strings_view(sorted@).contains(q));
                    assert(unseen(file_paths(fv), old(self).seen@).to_multiset().count(q) > 0);
                    lemma_unseen_within(file_paths(fv), old(self).seen@, q);
                }
            }
        }
        // Shed the newest queued files while the spool is too large.
        let mut shed: Vec<String> = Vec::new();
        let mut remaining: u128 = total;
        while remaining > self.policy.max_size as u128 && !queue.is_empty()
            invariant
                self.policy == p,
                fresh@ == fv,
                queue@ + strings_view(shed@).reverse() == admitted,
                remaining as int == after_shed(total_size(fv), fv, strings_view(shed@)),
                forall|k: int|
                    0 <= k < shed@.len() ==> after_shed(
                        total_size(fv),
                        fv,
                        #[trigger] strings_view(shed@).subrange(0, k),
                    ) > p.max_size,
            decreases queue@.len(),
        {
            if let Some(path) = queue.pop_back() {
                let size = size_of(&fresh, path.as_str());
                let ghost before = shed@;
                shed.push(path);
                assert(strings_view(shed@) =~= strings_view(before).push(path@));
                assert forall|k: int|
                    0 <= k < shed@.len() implies after_shed(
                        total_size(fv),
                        fv,
                        #[trigger] strings_view(shed@).subrange(0, k),
                    ) > p.max_size by {
                    if k < before.len() {
                        assert(strings_view(shed@).subrange(0, k) =~= strings_view(before).subrange(
                            0,
                            k,
                        ));
                    } else {
                        assert(strings_view(shed@).subrange(0, k) =~= strings_view(before));
                    }
                }
                assert(strings_view(shed@).drop_last() =~= strings_view(before));
                assert(strings_view(shed@).reverse() =~= seq![path@] + strings_view(before).reverse());
                remaining = if remaining >= size as u128 {
                    remaining - size as u128
                } else {
                    0
                };
            }
        }
        proof {
            assert forall|q: Seq<char>| #[trigger] queue@.contains(q) implies file_paths(fv).contains(
                q,
            ) by {
                let k = choose|k: int| 0 <= k < queue@.len() && queue@[k] == q;
                assert((queue@ + strings_view(shed@).reverse())[k] == queue@[k]);
                assert(admitted[k] == q);
                assert(admitted.contains(q));
            }
        }
        let r = Eviction { expired, shed };
        proof {
            let fresh_s = entries@.filter(is_fresh(p, now_ms));
            assert(fv == fresh_s);
            assert(strings_view(r.expired@) == file_paths(entries@.filter(is_expired(p, now_ms))));
            assert(self.seen@ == file_paths(fresh_s));
            assert(after_shed(total_size(fresh_s), fresh_s, strings_view(r.shed@)) <= p.max_size
                || queue@.len() == 0);
            let new = strings_view(sorted@);
            assert(ascending(new));
            assert(new.to_multiset() == unseen(file_paths(fresh_s), old(self).seen@).to_multiset());
            assert(queue@ + strings_view(r.shed@).reverse() == old(queue)@.filter(in_paths(file_paths(fresh_s))) + new);
        }
        r
    }
}

proof fn lemma_unseen_within(current: Seq<Seq<char>>, seen: Seq<Seq<char>>, q: Seq<char>)
    requires
        unseen(current, seen).contains(q),
    ensures
        current.contains(q),
    decreases current.len(),
{
    if current.len() > 0 {
        let w = unseen(current.drop_last(), seen);
        if w.contains(q) {
            lemma_unseen_within(current.drop_last(), seen, q);
            let k = choose|k: int| 0 <= k < current.drop_last().len() && current.drop_last()[k] == q;
            assert(current[k] == q);
        } else {
            assert(current.last() == q);
            assert(current[current.len() - 1] == q);
        }
    }
}

/// The size of the first of `files` at `path`, or 0.
fn size_of(files: &Vec<SpoolFile>, path: &str) -> (r: u64)
    ensures
        r == size_at(files@, path@),
{
    let mut i: usize = 0;
    assert(files@.subrange(0, files.len() as int) =~= files@);
    while i < files.len()
        invariant
            0 <= i <= files.len(),
            size_at(files@.subrange(i as int, files.len() as int), path@) == size_at(files@, path@),
        decreases files.len() - i,
    {
        let ghost rest = files@.subrange(i as int, files.len() as int);
        assert(rest.drop_first() =~= files@.subrange(i + 1, files.len() as int));
        if crate::spool::same_text(files[i].path.as_str(), path) {
            return files[i].size;
        }
        i = i + 1;
    }
    0
}

} // verus!
