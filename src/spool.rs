//! Spool directories as the pipeline sees them: the files a scan found, the
//! set of paths already seen, and the queue of paths waiting to be sent.
use vstd::prelude::*;
use crate::text::{chars_of, lemma_rscan, rfind_char, rscan, slice, strings_view};

verus! {

/// A finalized spool file found by a scan.
#[derive(Clone, Debug)]
pub struct SpoolFile {
    /// Its full path.
    pub path: String,
    /// Its file name.
    pub name: String,
    /// Its length in bytes.
    pub size: u64,
    /// Its modification time, in milliseconds since the epoch.
    pub modified_ms: u64,
}

pub open spec fn file_paths(v: Seq<SpoolFile>) -> Seq<Seq<char>> {
    Seq::new(v.len(), |i: int| v[i].path@)
}

/// The test of membership in `v`.
pub open spec fn in_paths(v: Seq<Seq<char>>) -> spec_fn(Seq<char>) -> bool {
    |q: Seq<char>| v.contains(q)
}

/// Whether `a` and `b` hold the same characters.
pub fn same_text(a: &str, b: &str) -> (r: bool)
    ensures
        r == (a@ == b@),
{
    let x = chars_of(a);
    let y = chars_of(b);
    if x.len() != y.len() {
        return false;
    }
    let mut i: usize = 0;
    while i < x.len()
        invariant
            x@ == a@,
            y@ == b@,
            x.len() == y.len(),
            0 <= i <= x.len(),
            forall|k: int| 0 <= k < i ==> x@[k] == y@[k],
        decreases x.len() - i,
    {
        if x[i] != y[i] {
            return false;
        }
        i = i + 1;
    }
    assert(x@ =~= y@);
    true
}

/// Whether `p` is one of `v`.
pub fn contains_path(v: &Vec<String>, p: &str) -> (r: bool)
    ensures
        r == strings_view(v@).contains(p@),
{
    let mut i: usize = 0;
    while i < v.len()
        invariant
            0 <= i <= v.len(),
            forall|k: int| 0 <= k < i ==> v@[k]@ != p@,
        decreases v.len() - i,
    {
        if same_text(v[i].as_str(), p) {
            assert(strings_view(v@)[i as int] == p@);
            return true;
        }
        i = i + 1;
    }
    false
}

/// The paths a scanner has already reported.
pub struct SeenSet {
    paths: Vec<String>,
}

impl View for SeenSet {
    type V = Seq<Seq<char>>;

    closed spec fn view(&self) -> Seq<Seq<char>> {
        strings_view(self.paths@)
    }
}

/// The paths of `current` that are not in `seen`, in order.
pub open spec fn unseen(current: Seq<Seq<char>>, seen: Seq<Seq<char>>) -> Seq<Seq<char>>
    decreases current.len(),
{
    if current.len() == 0 {
        Seq::empty()
    } else {
        let w = unseen(current.drop_last(), seen);
        if seen.contains(current.last()) {
            w
        } else {
            w.push(current.last())
        }
    }
}

impl SeenSet {
    pub fn new() -> (r: SeenSet)
        ensures
            r@ == Seq::<Seq<char>>::empty(),
    {
        let r = SeenSet { paths: Vec::new() };
        assert(r@ =~= Seq::<Seq<char>>::empty());
        r
    }

    /// Records a scan that found `current`: returns the paths not seen
    /// before, in the order of `current`, and from now on holds exactly the
    /// paths of `current` (paths gone from the directory are forgotten).
    pub fn observe(&mut self, current: &Vec<String>) -> (new: Vec<String>)
        ensures
            strings_view(new@) == unseen(strings_view(current@), old(self)@),
            final(self)@ == strings_view(current@),
    {
        let mut new: Vec<String> = Vec::new();
        let mut i: usize = 0;
        while i < current.len()
            invariant
                0 <= i <= current.len(),
                strings_view(new@) == unseen(strings_view(current@).subrange(0, i as int), self@),
                self@ == old(self)@,
            decreases current.len() - i,
        {
            let ghost pre = strings_view(current@).subrange(0, i as int);
            assert(strings_view(current@).subrange(0, i + 1).drop_last() =~= pre);
            let p = current[i].clone();
            let known = contains_path(&self.paths, p.as_str());
            if !known {
                let ghost before = new@;
                new.push(p);
                assert(p@ == current@[i as int]@);
                assert(strings_view(new@) =~= strings_view(before).push(current@[i as int]@));
            }
            i = i + 1;
        }
        assert(strings_view(current@).subrange(0, current.len() as int) =~= strings_view(current@));
        let mut kept: Vec<String> = Vec::new();
        let mut k: usize = 0;
        while k < current.len()
            invariant
                0 <= k <= current.len(),
                strings_view(kept@) == strings_view(current@).subrange(0, k as int),
            decreases current.len() - k,
        {
            let item = current[k].clone();
            let ghost before = kept@;
            kept.push(item);
            assert(strings_view(kept@) =~= strings_view(before).push(current@[k as int]@));
            assert(strings_view(kept@) =~= strings_view(current@).subrange(0, k + 1));
            k = k + 1;
        }
        self.paths = kept;
        assert(strings_view(self.paths@) =~= strings_view(current@));
        new
    }

    /// Forgets `p`, so that the next scan that finds it reports it again.
    pub fn forget(&mut self, p: &str)
        ensures
            final(self)@ == old(self)@.filter(|q: Seq<char>| q != p@),
    {
        let mut kept: Vec<String> = Vec::new();
        let mut i: usize = 0;
        while i < self.paths.len()
            invariant
                0 <= i <= self.paths.len(),
                self.paths == old(self).paths,
                strings_view(kept@) == strings_view(self.paths@).subrange(0, i as int).filter(
                    |q: Seq<char>| q != p@,
                ),
            decreases self.paths.len() - i,
        {
            let ghost pre = strings_view(self.paths@).subrange(0, i as int);
            let ghost q = strings_view(self.paths@)[i as int];
            assert(strings_view(self.paths@).subrange(0, i + 1) =~= pre.push(q));
            reveal(Seq::filter);
            assert(pre.push(q).drop_last() =~= pre);
            if !same_text(self.paths[i].as_str(), p) {
                let item = self.paths[i].clone();
                let ghost before = kept@;
                kept.push(item);
                assert(strings_view(kept@) =~= strings_view(before).push(q));
            }
            i = i + 1;
        }
        assert(strings_view(self.paths@).subrange(0, self.paths.len() as int) =~= strings_view(
            self.paths@,
        ));
        self.paths = kept;
    }
}

/// The paths waiting to be sent to one sink, oldest first.
pub struct SpoolQueue {
    paths: Vec<String>,
}

impl View for SpoolQueue {
    type V = Seq<Seq<char>>;

    closed spec fn view(&self) -> Seq<Seq<char>> {
        strings_view(self.paths@)
    }
}

impl SpoolQueue {
    pub fn new() -> (r: SpoolQueue)
        ensures
            r@ == Seq::<Seq<char>>::empty(),
    {
        let r = SpoolQueue { paths: Vec::new() };
        assert(r@ =~= Seq::<Seq<char>>::empty());
        r
    }

    pub fn len(&self) -> (r: usize)
        ensures
            r == self@.len(),
    {
        self.paths.len()
    }

    pub fn is_empty(&self) -> (r: bool)
        ensures
            r == (self@.len() == 0),
    {
        self.paths.len() == 0
    }

    /// The paths, oldest first.
    pub fn paths(&self) -> (r: Vec<String>)
        ensures
            strings_view(r@) == self@,
    {
        self.paths.clone()
    }

    /// Admits `p` as the newest path.
    pub fn push_back(&mut self, p: String)
        ensures
            final(self)@ == old(self)@.push(p@),
    {
        self.paths.push(p);
        assert(self@ =~= old(self)@.push(p@));
    }

    /// Takes the oldest path.
    pub fn pop_front(&mut self) -> (r: Option<String>)
        ensures
            old(self)@.len() == 0 ==> r is None && final(self)@ == old(self)@,
            old(self)@.len() > 0 ==> (r matches Some(p) && p@ == old(self)@[0] && final(self)@
                == old(self)@.drop_first()),
    {
        if self.paths.len() == 0 {
            return None;
        }
        let p = self.paths.remove(0);
        assert(self@ =~= old(self)@.drop_first());
        Some(p)
    }

    /// Takes the newest path.
    pub fn pop_back(&mut self) -> (r: Option<String>)
        ensures
            old(self)@.len() == 0 ==> r is None && final(self)@ == old(self)@,
            old(self)@.len() > 0 ==> (r matches Some(p) && p@ == old(self)@.last() && final(self)@
                == old(self)@.drop_last()),
    {
        if self.paths.len() == 0 {
            return None;
        }
        let r = self.paths.pop();
        assert(self@ =~= old(self)@.drop_last());
        r
    }

    /// Puts `paths` back in front of the queue, in their order, so that they
    /// are the next to be taken.
    pub fn push_front_all(&mut self, paths: &Vec<String>)
        ensures
            final(self)@ == strings_view(paths@) + old(self)@,
    {
        let mut front: Vec<String> = paths.clone();
        assert(strings_view(front@) == strings_view(paths@));
        let mut i: usize = 0;
        while i < self.paths.len()
            invariant
                0 <= i <= self.paths.len(),
                self.paths == old(self).paths,
                strings_view(front@) == strings_view(paths@) + strings_view(self.paths@).subrange(
                    0,
                    i as int,
                ),
            decreases self.paths.len() - i,
        {
            let item = self.paths[i].clone();
            let ghost before = front@;
            front.push(item);
            assert(strings_view(front@) =~= strings_view(before).push(self.paths@[i as int]@));
            assert(strings_view(front@) =~= strings_view(paths@) + strings_view(self.paths@).subrange(
                0,
                i + 1,
            ));
            i = i + 1;
        }
        assert(strings_view(self.paths@).subrange(0, self.paths.len() as int) =~= strings_view(
            self.paths@,
        ));
        self.paths = front;
    }

    /// Keeps only the paths that are in `keep`, in their order.
    pub fn retain_in(&mut self, keep: &Vec<String>)
        ensures
            final(self)@ == old(self)@.filter(in_paths(strings_view(keep@))),
    {
        let mut kept: Vec<String> = Vec::new();
        let mut i: usize = 0;
        while i < self.paths.len()
            invariant
                0 <= i <= self.paths.len(),
                self.paths == old(self).paths,
                strings_view(kept@) == strings_view(self.paths@).subrange(0, i as int).filter(
                    in_paths(strings_view(keep@)),
                ),
            decreases self.paths.len() - i,
        {
            let ghost pre = strings_view(self.paths@).subrange(0, i as int);
            let ghost q = strings_view(self.paths@)[i as int];
            assert(strings_view(self.paths@).subrange(0, i + 1) =~= pre.push(q));
            reveal(Seq::filter);
            assert(pre.push(q).drop_last() =~= pre);
            if contains_path(keep, self.paths[i].as_str()) {
                let ghost before = kept@;
                let item = self.paths[i].clone();
                kept.push(item);
                assert(strings_view(kept@) =~= strings_view(before).push(q));
            }
            i = i + 1;
        }
        assert(strings_view(self.paths@).subrange(0, self.paths.len() as int) =~= strings_view(
            self.paths@,
        ));
        self.paths = kept;
    }
}

/// `Path::extension` of a file name is `metrics`: the name has a last `.`,
/// not in first place, followed by `metrics`.
pub open spec fn is_metrics_name(name: Seq<char>) -> bool {
    let k = rscan(name, '.', name.len() as int);
    k > 0 && name.subrange(k + 1, name.len() as int) == seq!['m', 'e', 't', 'r', 'i', 'c', 's']
}

/// Whether a file name has the extension of finalized spool files.
pub fn has_metrics_extension(name: &str) -> (r: bool)
    ensures
        r == is_metrics_name(name@),
{
    let s = chars_of(name);
    proof {
        lemma_rscan(s@, '.', s@.len() as int);
    }
    match rfind_char(&s, '.', s.len()) {
        None => false,
        Some(k) => {
            if k == 0 || s.len() - k != 8 {
                proof {
                    if k > 0 {
                        assert(s@.subrange(k + 1, s@.len() as int).len() != 7);
                    }
                }
                return false;
            }
            let ext = slice(&s, k + 1, s.len());
            let r = ext[0] == 'm' && ext[1] == 'e' && ext[2] == 't' && ext[3] == 'r' && ext[4]
                == 'i' && ext[5] == 'c' && ext[6] == 's';
            proof {
                if r {
                    assert(ext@ =~= seq!['m', 'e', 't', 'r', 'i', 'c', 's']);
                } else {
                    assert(ext@ != seq!['m', 'e', 't', 'r', 'i', 'c', 's']) by {
                        if ext@ == seq!['m', 'e', 't', 'r', 'i', 'c', 's'] {
                            assert(ext@[0] == 'm' && ext@[6] == 's');
                        }
                    }
                }
            }
            r
        },
    }
}

/// A directory entry as listed: its path, its file name, and its size and
/// modification time (milliseconds) when they could be read.
pub struct DirEntry {
    pub path: String,
    pub name: String,
    pub meta: Option<(u64, u64)>,
}

/// The scanner of a spool directory: every `period_ms` the directory is
/// listed and the listing handed to `scan`.
pub struct Scanner {
    pub dir: String,
    pub period_ms: u64,
}

impl Scanner {
    /// The spool files of a listing: entries without the `metrics` extension
    /// are ignored, so are those whose metadata could not be read (a file
    /// deleted meanwhile); empty ones are set apart for deletion. Whatever is
    /// kept is non-empty, and every empty spool file of the listing is to be
    /// deleted.
    pub fn scan(entries: &Vec<DirEntry>) -> (r: Sweep)
        ensures
            r.files@.len() == entries@.filter(kept_entry()).len(),
            forall|k: int|
                0 <= k < r.files@.len() ==> {
                    let f = #[trigger] r.files@[k];
                    let e = entries@.filter(kept_entry())[k];
                    &&& f.path@ == e.path@
                    &&& f.name@ == e.name@
                    &&& e.meta == Some((f.size, f.modified_ms))
                    &&& f.size > 0
                },
            strings_view(r.empty@) == entries@.filter(empty_entry()).map_values(
                |e: DirEntry| e.path@,
            ),
    {
        let mut files: Vec<SpoolFile> = Vec::new();
        let mut empty: Vec<String> = Vec::new();
        let mut i: usize = 0;
        while i < entries.len()
            invariant
                0 <= i <= entries.len(),
                files@.len() == entries@.subrange(0, i as int).filter(kept_entry()).len(),
                forall|k: int|
                    0 <= k < files@.len() ==> {
                        let f = #[trigger] files@[k];
                        let e = entries@.subrange(0, i as int).filter(kept_entry())[k];
                        &&& f.path@ == e.path@
                        &&& f.name@ == e.name@
                        &&& e.meta == Some((f.size, f.modified_ms))
                        &&& f.size > 0
                    },
                strings_view(empty@) == entries@.subrange(0, i as int).filter(empty_entry()).map_values(
                    |e: DirEntry| e.path@,
                ),
            decreases entries.len() - i,
        {
            let ghost pre = entries@.subrange(0, i as int);
            let e = &entries[i];
            assert(entries@.subrange(0, i + 1) =~= pre.push(*e));
            reveal(Seq::filter);
            assert(pre.push(*e).drop_last() =~= pre);
            if has_metrics_extension(e.name.as_str()) {
                match e.meta {
                    Some((size, modified_ms)) => {
                        if size > 0 {
                            let ghost before = files@;
                            files.push(
                                SpoolFile {
                                    path: e.path.clone(),
                                    name: e.name.clone(),
                                    size,
                                    modified_ms,
                                },
                            );
                            assert(pre.push(*e).filter(kept_entry()) == pre.filter(kept_entry()).push(*e));
                            assert forall|k: int| 0 <= k < files@.len() implies {
                                let f = #[trigger] files@[k];
                                let g = entries@.subrange(0, i + 1).filter(kept_entry())[k];
                                &&& f.path@ == g.path@
                                &&& f.name@ == g.name@
                                &&& g.meta == Some((f.size, f.modified_ms))
                                &&& f.size > 0
                            } by {
                                if k < before.len() {
                                    assert(files@[k] == before[k]);
                                }
                            }
                        } else {
                            let ghost before = empty@;
                            empty.push(e.path.clone());
                            assert(pre.push(*e).filter(empty_entry()) == pre.filter(empty_entry()).push(*e));
                            assert(strings_view(empty@) =~= strings_view(before).push(e.path@));
                            assert(pre.push(*e).filter(empty_entry()).map_values(|x: DirEntry| x.path@)
                                =~= pre.filter(empty_entry()).map_values(|x: DirEntry| x.path@).push(
                                e.path@,
                            ));
                        }
                    },
                    None => {},
                }
            }
            i = i + 1;
        }
        assert(entries@.subrange(0, entries.len() as int) =~= entries@);
        Sweep { files, empty }
    }

}

/// The outcome of a sweep over a listing.
pub struct Sweep {
    /// The finalized spool files, none of them empty.
    pub files: Vec<SpoolFile>,
    /// Finalized spool files found empty, to be deleted.
    pub empty: Vec<String>,
}

pub open spec fn entry_kept(e: DirEntry) -> bool {
    is_metrics_name(e.name@) && (e.meta matches Some(m) && m.0 > 0)
}

pub open spec fn entry_empty(e: DirEntry) -> bool {
    is_metrics_name(e.name@) && (e.meta matches Some(m) && m.0 == 0)
}

pub open spec fn kept_entry() -> spec_fn(DirEntry) -> bool {
    |e: DirEntry| entry_kept(e)
}

pub open spec fn empty_entry() -> spec_fn(DirEntry) -> bool {
    |e: DirEntry| entry_empty(e)
}


} // verus!
