//! Host filesystem answers as plain values.
//!
//! The node layer never touches the host filesystem itself.  A `HostView`
//! carries the answers the host gives during one operation: the stat result
//! for each path that is consulted, and the entry listing of each directory
//! that is enumerated.  Host paths are sequences of name components.

use vstd::prelude::*;

use crate::attrs::HostMeta;
use crate::errors::ENOENT;

verus! {

/// The view of a host path: its components as character sequences.
pub open spec fn path_view(p: Seq<String>) -> Seq<Seq<char>> {
    p.map_values(|s: String| s@)
}

/// Outcome of a host stat call on one path.
#[derive(Clone, Copy, PartialEq, Eq, Structural, Debug)]
pub enum StatResult {
    /// The path exists; its metadata.
    Found(HostMeta),
    /// The stat failed; the host's errno.
    Failed(u32),
}

/// The host filesystem's answers during one operation: stat outcomes by
/// path, and directory listings by path.  A path with no stat entry counts
/// as failing with `ENOENT`; a path with no listing entry cannot be
/// enumerated.
pub struct HostView {
    pub stats: Vec<(Vec<String>, StatResult)>,
    pub listings: Vec<(Vec<String>, Vec<String>)>,
}

/// The stat outcome recorded for path `p`: the first matching entry, or
/// `Failed(ENOENT)` when none is recorded.
pub open spec fn spec_stat(entries: Seq<(Vec<String>, StatResult)>, p: Seq<Seq<char>>) -> StatResult
    decreases entries.len(),
{
    if entries.len() == 0 {
        StatResult::Failed(ENOENT)
    } else if path_view(entries[0].0@) == p {
        entries[0].1
    } else {
        spec_stat(entries.drop_first(), p)
    }
}

/// The listing recorded for path `p`: the first matching entry, if any.
pub open spec fn spec_listing(entries: Seq<(Vec<String>, Vec<String>)>, p: Seq<Seq<char>>) -> Option<
    Seq<String>,
>
    decreases entries.len(),
{
    if entries.len() == 0 {
        Option::None
    } else if path_view(entries[0].0@) == p {
        Option::Some(entries[0].1@)
    } else {
        spec_listing(entries.drop_first(), p)
    }
}

impl HostView {
    /// The stat outcome this view holds for path `p`.
    pub open spec fn stat_of(self, p: Seq<Seq<char>>) -> StatResult {
        spec_stat(self.stats@, p)
    }

    /// The directory listing this view holds for path `p`.
    pub open spec fn listing_of(self, p: Seq<Seq<char>>) -> Option<Seq<String>> {
        spec_listing(self.listings@, p)
    }

    /// Looks up the stat outcome for `p`.
    pub fn stat(&self, p: &Vec<String>) -> (r: StatResult)
        ensures
            r == self.stat_of(path_view(p@)),
    {
        let ghost pv = path_view(p@);
        let mut i: usize = 0;
        proof {
            assert(self.stats@.skip(0) =~= self.stats@);
        }
        while i < self.stats.len()
            invariant
                i <= self.stats@.len(),
                spec_stat(self.stats@.skip(i as int), pv) == spec_stat(self.stats@, pv),
                pv == path_view(p@),
            decreases self.stats@.len() - i,
        {
            proof {
                assert(self.stats@.skip(i as int)[0] == self.stats@[i as int]);
                assert(self.stats@.skip(i as int).drop_first() =~= self.stats@.skip(i as int + 1));
            }
            if path_eq(&self.stats[i].0, p) {
                return self.stats[i].1;
            }
            i = i + 1;
        }
        proof {
            assert(self.stats@.skip(i as int) =~= Seq::<(Vec<String>, StatResult)>::empty());
        }
        StatResult::Failed(ENOENT)
    }

    /// Looks up the directory listing for `p`.
    pub fn listing(&self, p: &Vec<String>) -> (r: Option<&Vec<String>>)
        ensures
            match r {
                Option::Some(v) => self.listing_of(path_view(p@)) == Option::Some(v@),
                Option::None => self.listing_of(path_view(p@)) is None,
            },
    {
        let ghost pv = path_view(p@);
        let mut i: usize = 0;
        proof {
            assert(self.listings@.skip(0) =~= self.listings@);
        }
        while i < self.listings.len()
            invariant
                i <= self.listings@.len(),
                spec_listing(self.listings@.skip(i as int), pv) == spec_listing(
                    self.listings@,
                    pv,
                ),
                pv == path_view(p@),
            decreases self.listings@.len() - i,
        {
            proof {
                assert(self.listings@.skip(i as int)[0] == self.listings@[i as int]);
                assert(self.listings@.skip(i as int).drop_first() =~= self.listings@.skip(
                    i as int + 1,
                ));
            }
            if path_eq(&self.listings[i].0, p) {
                return Option::Some(&self.listings[i].1);
            }
            i = i + 1;
        }
        proof {
            assert(self.listings@.skip(i as int) =~= Seq::<(Vec<String>, Vec<String>)>::empty());
        }
        Option::None
    }
}

/// Compares two paths component by component.
pub fn path_eq(a: &Vec<String>, b: &Vec<String>) -> (r: bool)
    ensures
        r == (path_view(a@) == path_view(b@)),
{
    if a.len() != b.len() {
        proof {
            assert(path_view(a@).len() != path_view(b@).len());
        }
        return false;
    }
    let mut i: usize = 0;
    while i < a.len()
        invariant
            i <= a@.len(),
            a@.len() == b@.len(),
            forall|j: int| 0 <= j < i ==> a@[j]@ == b@[j]@,
        decreases a@.len() - i,
    {
        if !(a[i] == b[i]) {
            proof {
                assert(path_view(a@)[i as int] != path_view(b@)[i as int]);
            }
            return false;
        }
        i = i + 1;
    }
    proof {
        assert(path_view(a@) =~= path_view(b@));
    }
    true
}

/// Appends one component to a path, as host `join` does for a plain name.
pub fn path_join(base: &Vec<String>, name: &String) -> (r: Vec<String>)
    ensures
        path_view(r@) == path_view(base@).push(name@),
{
    let mut r = clone_path(base);
    r.push(name.clone());
    proof {
        assert(path_view(r@) =~= path_view(base@).push(name@));
    }
    r
}

/// Copies a path.
pub fn clone_path(p: &Vec<String>) -> (r: Vec<String>)
    ensures
        path_view(r@) == path_view(p@),
        r@.len() == p@.len(),
{
    let r = p.clone();
    proof {
        assert forall|i: int| 0 <= i < p@.len() implies r@[i]@ == p@[i]@ by {
            assert(vstd::pervasive::cloned::<String>(p@[i], r@[i]));
        }
        assert(path_view(r@) =~= path_view(p@));
    }
    r
}

} // verus!
