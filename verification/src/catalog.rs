//! Track records and the music catalog.
//!
//! A track is a file whose name ends in one of the accepted audio container
//! suffixes (`.mp3`, `.flac`, `.ogg`, `.wav`), compared byte for byte, so the
//! match is case-sensitive. The catalog keeps the tracks in discovery order,
//! never sorted, and holds no path twice; it is rebuilt wholesale on refresh,
//! never mutated incrementally.

use crate::bytestr::{bytes_eq, clone_bytes, copy_range};
use vstd::prelude::*;

verus! {

/// One playable file, identified by its path (a byte string, root-relative or
/// absolute as the walker handed it in). Immutable once created.
#[derive(Debug)]
pub struct TrackRecord {
    pub path: Vec<u8>,
}

impl View for TrackRecord {
    type V = Seq<u8>;

    open spec fn view(&self) -> Seq<u8> {
        self.path@
    }
}

impl DeepView for TrackRecord {
    type V = Seq<u8>;

    open spec fn deep_view(&self) -> Seq<u8> {
        self.path@
    }
}

/// The final component of a path: the bytes after the last separator, or the
/// whole path when it has none; empty when the path ends in a separator.
pub open spec fn basename_of(p: Seq<u8>) -> Seq<u8>
    decreases p.len(),
{
    if p.len() == 0 {
        Seq::empty()
    } else if p.last() == 47 {
        Seq::empty()
    } else {
        basename_of(p.drop_last()).push(p.last())
    }
}

/// Past the last separator a path's basename is the remaining suffix.
proof fn lemma_basename_subrange(p: Seq<u8>, cut: int)
    requires
        0 <= cut <= p.len(),
        cut == 0 || p[cut - 1] == 47,
        forall|m: int| cut <= m < p.len() ==> p[m] != 47,
    ensures
        basename_of(p) == p.subrange(cut, p.len() as int),
    decreases p.len(),
{
    if p.len() == 0 {
        assert(p.subrange(0, 0) =~= Seq::<u8>::empty());
    } else if cut == p.len() {
        assert(p.last() == p[cut - 1]);
        assert(p.subrange(cut, p.len() as int) =~= Seq::<u8>::empty());
    } else {
        assert(p.last() != 47);
        lemma_basename_subrange(p.drop_last(), cut);
        assert(p.drop_last().subrange(cut, p.len() - 1).push(p.last()) =~= p.subrange(
            cut,
            p.len() as int,
        ));
    }
}

impl TrackRecord {
    /// The display name derived from the path: its final component.
    pub fn display_name(&self) -> (r: Vec<u8>)
        ensures
            r@ == basename_of(self@),
    {
        let n = self.path.len();
        let mut cut: usize = 0;
        let mut i: usize = 0;
        while i < n
            invariant
                cut <= i <= n,
                n == self.path@.len(),
                cut == 0 || self.path@[cut - 1] == 47,
                forall|m: int| cut <= m < i ==> self.path@[m] != 47,
            decreases n - i,
        {
            if self.path[i] == 47 {
                cut = i + 1;
            }
            i = i + 1;
        }
        proof {
            lemma_basename_subrange(self.path@, cut as int);
        }
        copy_range(&self.path, cut, n)
    }
}

/// True when `s` ends in `.mp3`.
pub open spec fn has_mp3_suffix(s: Seq<u8>) -> bool {
    s.len() >= 4 && s[s.len() - 4] == 46 && s[s.len() - 3] == 109 && s[s.len() - 2] == 112 && s[
        s.len() - 1] == 51
}

/// True when `s` ends in `.flac`.
pub open spec fn has_flac_suffix(s: Seq<u8>) -> bool {
    s.len() >= 5 && s[s.len() - 5] == 46 && s[s.len() - 4] == 102 && s[s.len() - 3] == 108 && s[
        s.len() - 2] == 97 && s[s.len() - 1] == 99
}

/// True when `s` ends in `.ogg`.
pub open spec fn has_ogg_suffix(s: Seq<u8>) -> bool {
    s.len() >= 4 && s[s.len() - 4] == 46 && s[s.len() - 3] == 111 && s[s.len() - 2] == 103 && s[
        s.len() - 1] == 103
}

/// True when `s` ends in `.wav`.
pub open spec fn has_wav_suffix(s: Seq<u8>) -> bool {
    s.len() >= 4 && s[s.len() - 4] == 46 && s[s.len() - 3] == 119 && s[s.len() - 2] == 97 && s[
        s.len() - 1] == 118
}

/// The accepted-track criterion: the path ends in one of the audio container
/// suffixes.
pub open spec fn is_track(s: Seq<u8>) -> bool {
    has_mp3_suffix(s) || has_flac_suffix(s) || has_ogg_suffix(s) || has_wav_suffix(s)
}

/// Decide the track criterion for one path.
pub fn is_track_path(p: &Vec<u8>) -> (r: bool)
    ensures
        r == is_track(p@),
{
    let n = p.len();
    if n >= 4 && p[n - 4] == 46 && p[n - 3] == 109 && p[n - 2] == 112 && p[n - 1] == 51 {
        return true;
    }
    if n >= 5 && p[n - 5] == 46 && p[n - 4] == 102 && p[n - 3] == 108 && p[n - 2] == 97 && p[n - 1]
        == 99 {
        return true;
    }
    if n >= 4 && p[n - 4] == 46 && p[n - 3] == 111 && p[n - 2] == 103 && p[n - 1] == 103 {
        return true;
    }
    if n >= 4 && p[n - 4] == 46 && p[n - 3] == 119 && p[n - 2] == 97 && p[n - 1] == 118 {
        return true;
    }
    false
}

/// The in-memory ordered collection of discovered tracks for one root.
/// Insertion order is discovery order; the well-formedness invariant is that
/// no path occurs twice.
#[derive(Debug)]
pub struct MusicCatalog {
    pub tracks: Vec<TrackRecord>,
}

impl View for MusicCatalog {
    type V = Seq<Seq<u8>>;

    open spec fn view(&self) -> Seq<Seq<u8>> {
        Seq::new(self.tracks@.len(), |i: int| self.tracks@[i]@)
    }
}

impl MusicCatalog {
    /// Well-formed: no duplicate paths.
    pub open spec fn wf(&self) -> bool {
        self@.no_duplicates()
    }

    /// An empty catalog.
    pub fn empty() -> (c: MusicCatalog)
        ensures
            c@ == Seq::<Seq<u8>>::empty(),
            c.wf(),
    {
        let c = MusicCatalog { tracks: Vec::new() };
        proof {
            assert(c@ =~= Seq::<Seq<u8>>::empty());
        }
        c
    }

    /// How many tracks were discovered.
    pub fn len(&self) -> (n: usize)
        ensures
            n == self@.len(),
    {
        self.tracks.len()
    }

    /// The path of the track at position `i`.
    pub fn path_at(&self, i: usize) -> (p: &Vec<u8>)
        requires
            i < self@.len(),
        ensures
            p@ == self@[i as int],
    {
        &self.tracks[i].path
    }

    /// True exactly when some record holds this path.
    pub fn contains_path(&self, p: &Vec<u8>) -> (r: bool)
        ensures
            r == self@.contains(p@),
    {
        let mut i: usize = 0;
        while i < self.tracks.len()
            invariant
                i <= self.tracks@.len(),
                self@.len() == self.tracks@.len(),
                forall|k: int| 0 <= k < i ==> self@[k] != p@,
            decreases self.tracks@.len() - i,
        {
            if bytes_eq(&self.tracks[i].path, p) {
                assert(self@[i as int] == p@);
                return true;
            }
            i = i + 1;
        }
        assert(!self@.contains(p@));
        false
    }

    /// Append a record; callers keep the no-duplicates invariant.
    pub(crate) fn push_path(&mut self, p: Vec<u8>)
        ensures
            final(self)@ == old(self)@.push(p@),
    {
        self.tracks.push(TrackRecord { path: p });
        proof {
            assert(final(self)@ =~= old(self)@.push(p@));
        }
    }
}

/// The catalog produced from a stream of discovered file paths: each path
/// that meets the track criterion is kept the first time it appears, in
/// stream order; repeats and non-tracks are dropped.
pub open spec fn catalog_from(files: Seq<Seq<u8>>) -> Seq<Seq<u8>>
    decreases files.len(),
{
    if files.len() == 0 {
        Seq::empty()
    } else {
        let prior = catalog_from(files.drop_last());
        if is_track(files.last()) && !prior.contains(files.last()) {
            prior.push(files.last())
        } else {
            prior
        }
    }
}

/// Appending a path not yet present keeps a duplicate-free sequence
/// duplicate-free.
pub proof fn lemma_no_dup_push(s: Seq<Seq<u8>>, x: Seq<u8>)
    requires
        s.no_duplicates(),
        !s.contains(x),
    ensures
        s.push(x).no_duplicates(),
{
    assert forall|i: int, j: int|
        0 <= i < s.push(x).len() && 0 <= j < s.push(x).len() && i != j implies s.push(x)[i]
        != s.push(x)[j] by {
        if i < s.len() && j < s.len() {
        } else if i == s.len() {
            assert(s.push(x)[j] == s[j]);
            assert(s.contains(s[j]));
        } else {
            assert(s.push(x)[i] == s[i]);
            assert(s.contains(s[i]));
        }
    }
}

/// Law: a catalog never holds the same path twice.
pub proof fn lemma_catalog_from_no_dup(files: Seq<Seq<u8>>)
    ensures
        catalog_from(files).no_duplicates(),
    decreases files.len(),
{
    if files.len() == 0 {
    } else {
        lemma_catalog_from_no_dup(files.drop_last());
        let prior = catalog_from(files.drop_last());
        let f = files.last();
        if is_track(f) && !prior.contains(f) {
            lemma_no_dup_push(prior, f);
        }
    }
}

/// Law: catalog completeness. A path is in the catalog built from a stream
/// of discovered files exactly when it appeared in the stream and meets the
/// track criterion — nothing is lost, nothing is invented.
pub proof fn lemma_catalog_from_complete(files: Seq<Seq<u8>>, p: Seq<u8>)
    ensures
        catalog_from(files).contains(p) <==> (files.contains(p) && is_track(p)),
    decreases files.len(),
{
    if files.len() == 0 {
    } else {
        lemma_catalog_from_complete(files.drop_last(), p);
        let prior = catalog_from(files.drop_last());
        let f = files.last();
        // membership in the stream splits into the front and the last element
        assert(files.contains(p) <==> (files.drop_last().contains(p) || p == f)) by {
            if files.contains(p) {
                let i = choose|i: int| 0 <= i < files.len() && files[i] == p;
                if i < files.len() - 1 {
                    assert(files.drop_last()[i] == p);
                }
            }
            if files.drop_last().contains(p) {
                let i = choose|i: int| 0 <= i < files.drop_last().len() && files.drop_last()[i]
                    == p;
                assert(files[i] == p);
            }
            if p == f {
                assert(files[files.len() - 1] == p);
            }
        }
        if is_track(f) && !prior.contains(f) {
            assert(prior.push(f).contains(p) <==> (prior.contains(p) || p == f)) by {
                if prior.push(f).contains(p) {
                    let i = choose|i: int| 0 <= i < prior.push(f).len() && prior.push(f)[i] == p;
                    if i < prior.len() {
                        assert(prior[i] == p);
                    }
                }
                if prior.contains(p) {
                    let i = choose|i: int| 0 <= i < prior.len() && prior[i] == p;
                    assert(prior.push(f)[i] == p);
                }
                if p == f {
                    assert(prior.push(f)[prior.len() as int] == p);
                }
            }
        }
    }
}

/// Build the catalog for a stream of discovered file paths.
pub fn build_catalog(files: &Vec<Vec<u8>>) -> (cat: MusicCatalog)
    ensures
        cat@ == catalog_from(files.deep_view()),
        cat.wf(),
{
    let ghost dv: Seq<Seq<u8>> = files.deep_view();
    let mut cat = MusicCatalog::empty();
    let mut i: usize = 0;
    while i < files.len()
        invariant
            i <= files@.len(),
            dv == files.deep_view(),
            dv.len() == files@.len(),
            cat@ == catalog_from(dv.take(i as int)),
        decreases files@.len() - i,
    {
        let f = &files[i];
        proof {
            assert(dv[i as int] == f@);
            assert(dv.take(i as int + 1).drop_last() =~= dv.take(i as int));
            assert(dv.take(i as int + 1).last() == dv[i as int]);
        }
        if is_track_path(f) && !cat.contains_path(f) {
            cat.push_path(clone_bytes(f));
        }
        i = i + 1;
    }
    proof {
        assert(dv.take(dv.len() as int) =~= dv);
        lemma_catalog_from_no_dup(dv);
    }
    cat
}

} // verus!
