use vstd::prelude::*;

verus! {

/// Whether a path names a launchable file: its file name has the extension
/// `exe` or `lnk`, with a non-empty stem before the dot.
pub open spec fn is_launchable_path(p: Seq<char>) -> bool {
    let n = p.len();
    &&& n > 4
    &&& p[n - 4] == '.'
    &&& ((p[n - 3] == 'e' && p[n - 2] == 'x' && p[n - 1] == 'e') || (p[n - 3] == 'l' && p[n
        - 2] == 'n' && p[n - 1] == 'k'))
    &&& p[n - 5] != '/'
    &&& p[n - 5] != '\\'
}

/// One entry of a directory listing.
#[derive(Clone, Debug)]
pub struct Entry {
    pub path: String,
    pub is_dir: bool,
}

/// The paths of the launchable files of a listing, in listing order.
pub open spec fn targets_of(es: Seq<Entry>) -> Seq<Seq<char>>
    decreases es.len(),
{
    if es.len() == 0 {
        Seq::empty()
    } else {
        let rest = targets_of(es.drop_last());
        let e = es.last();
        if !e.is_dir && is_launchable_path(e.path@) {
            rest.push(e.path@)
        } else {
            rest
        }
    }
}

/// The paths of the directories of a listing, in listing order.
pub open spec fn dirs_of(es: Seq<Entry>) -> Seq<Seq<char>>
    decreases es.len(),
{
    if es.len() == 0 {
        Seq::empty()
    } else {
        let rest = dirs_of(es.drop_last());
        let e = es.last();
        if e.is_dir {
            rest.push(e.path@)
        } else {
            rest
        }
    }
}

/// The number of launchable files in a listing.
pub open spec fn count_targets(es: Seq<Entry>) -> nat
    decreases es.len(),
{
    if es.len() == 0 {
        0
    } else {
        count_targets(es.drop_last()) + if !es.last().is_dir && is_launchable_path(
            es.last().path@,
        ) {
            1nat
        } else {
            0nat
        }
    }
}

/// A listing keeps exactly its launchable files, whatever else it holds, and
/// nothing else.
pub proof fn lemma_targets_exact(es: Seq<Entry>)
    ensures
        targets_of(es).len() == count_targets(es),
        forall|i: int| 0 <= i < targets_of(es).len() ==> is_launchable_path(#[trigger] targets_of(es)[i]),
        forall|k: int|
            0 <= k < es.len() && !es[k].is_dir && is_launchable_path(es[k].path@)
                ==> targets_of(es).contains(#[trigger] es[k].path@),
    decreases es.len(),
{
    if es.len() > 0 {
        let d = es.drop_last();
        lemma_targets_exact(d);
        assert forall|k: int|
            0 <= k < es.len() && !es[k].is_dir && is_launchable_path(es[k].path@)
                implies targets_of(es).contains(#[trigger] es[k].path@) by {
            if k < es.len() - 1 {
                assert(es[k] == d[k]);
                let j = choose|j: int| 0 <= j < targets_of(d).len() && targets_of(d)[j] == d[k].path@;
                assert(targets_of(es)[j] == targets_of(d)[j]);
            } else {
                assert(targets_of(es).last() == es[k].path@);
            }
        }
    }
}

/// Whether a path names a launchable file.
pub fn is_launchable(path: &str) -> (r: bool)
    ensures
        r == is_launchable_path(path@),
{
    let n = path.unicode_len();
    if n <= 4 {
        return false;
    }
    let dot = path.get_char(n - 4);
    let a = path.get_char(n - 3);
    let b = path.get_char(n - 2);
    let c = path.get_char(n - 1);
    let sep = path.get_char(n - 5);
    dot == '.' && ((a == 'e' && b == 'x' && c == 'e') || (a == 'l' && b == 'n' && c == 'k'))
        && sep != '/' && sep != '\\'
}

/// A walk of a directory tree. The caller lists each directory that
/// `next_directory` hands out and passes the listing to `add_listing`;
/// directories are entered unconditionally, launchable files are kept.
pub struct Discovery {
    pub pending: Vec<String>,
    pub found: Vec<String>,
}

pub open spec fn views(v: Seq<String>) -> Seq<Seq<char>> {
    v.map_values(|s: String| s@)
}

impl Discovery {
    /// A walk that starts at `root`.
    pub fn new(root: String) -> (r: Discovery)
        ensures
            views(r.pending@) == seq![root@],
            r.found@.len() == 0,
    {
        let mut pending: Vec<String> = Vec::new();
        pending.push(root);
        assert(views(pending@) =~= seq![root@]);
        Discovery { pending, found: Vec::new() }
    }

    /// The next directory to list, or `None` when the walk is done.
    pub fn next_directory(&mut self) -> (r: Option<String>)
        ensures
            old(self).pending@.len() == 0 ==> r is None && final(self).pending@ == old(self).pending@
                && final(self).found@ == old(self).found@,
            old(self).pending@.len() > 0 ==> (r matches Some(d) && d == old(self).pending@.last()
                && final(self).pending@ == old(self).pending@.drop_last() && final(self).found@
                == old(self).found@),
    {
        self.pending.pop()
    }

    /// Takes the listing of a directory: its launchable files join the
    /// targets found, its directories the ones still to list.
    pub fn add_listing(&mut self, entries: &Vec<Entry>)
        ensures
            views(final(self).found@) == views(old(self).found@) + targets_of(entries@),
            views(final(self).pending@) == views(old(self).pending@) + dirs_of(entries@),
    {
        let mut i: usize = 0;
        let ghost f0 = views(self.found@);
        let ghost p0 = views(self.pending@);
        assert(entries@.subrange(0, 0) =~= Seq::<Entry>::empty());
        assert(f0 + targets_of(Seq::<Entry>::empty()) =~= f0);
        assert(p0 + dirs_of(Seq::<Entry>::empty()) =~= p0);
        while i < entries.len()
            invariant
                i <= entries@.len(),
                views(self.found@) == f0 + targets_of(entries@.subrange(0, i as int)),
                views(self.pending@) == p0 + dirs_of(entries@.subrange(0, i as int)),
            decreases entries@.len() - i,
        {
            let e = &entries[i];
            let ghost sub = entries@.subrange(0, i + 1);
            assert(sub.drop_last() =~= entries@.subrange(0, i as int));
            assert(sub.last() == *e);
            let ghost fb = self.found@;
            let ghost pb = self.pending@;
            if e.is_dir {
                let p = e.path.clone();
                self.pending.push(p);
                assert(views(self.pending@) =~= views(pb).push(e.path@));
                assert(views(self.pending@) =~= p0 + dirs_of(sub));
                assert(views(self.found@) =~= f0 + targets_of(sub));
            } else if is_launchable(e.path.as_str()) {
                let p = e.path.clone();
                self.found.push(p);
                assert(views(self.found@) =~= views(fb).push(e.path@));
                assert(views(self.found@) =~= f0 + targets_of(sub));
                assert(views(self.pending@) =~= p0 + dirs_of(sub));
            } else {
                assert(views(self.found@) =~= f0 + targets_of(sub));
                assert(views(self.pending@) =~= p0 + dirs_of(sub));
            }
            i += 1;
        }
        assert(entries@.subrange(0, i as int) =~= entries@);
    }

    /// The targets found so far.
    pub fn targets(&self) -> (r: Vec<String>)
        ensures
            views(r@) == views(self.found@),
    {
        let mut out: Vec<String> = Vec::new();
        let mut i: usize = 0;
        while i < self.found.len()
            invariant
                i <= self.found@.len(),
                views(out@) == views(self.found@.subrange(0, i as int)),
            decreases self.found@.len() - i,
        {
            let ghost ob = out@;
            let s = self.found[i].clone();
            out.push(s);
            assert(views(out@) =~= views(ob).push(self.found@[i as int]@));
            assert(views(out@) =~= views(self.found@.subrange(0, i + 1)));
            i += 1;
        }
        assert(self.found@.subrange(0, i as int) =~= self.found@);
        out
    }
}

} // verus!
