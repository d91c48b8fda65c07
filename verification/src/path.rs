//! Path splitting and resolution from the root directory.

use vstd::prelude::*;

use vstd::string::StringSliceAdditionalSpecFns;

use crate::device::BlockDevice;
use crate::dir::{dir_readable, spec_dir_listing, spec_find, spec_root_dir};
use crate::entry::{Dir, DirV, Entry, EntryV};
use crate::error::Error;
use crate::vfat::VFat;

verus! {

/// The length of the first slash-free run of `p`.
pub open spec fn seg_len(p: Seq<u8>) -> int
    decreases p.len(),
{
    if p.len() == 0 || p[0] == 0x2F {
        0
    } else {
        1 + seg_len(p.skip(1))
    }
}

pub proof fn lemma_seg_len_bounds(p: Seq<u8>)
    ensures
        0 <= seg_len(p) <= p.len(),
    decreases p.len(),
{
    if !(p.len() == 0 || p[0] == 0x2F) {
        lemma_seg_len_bounds(p.skip(1));
    }
}

/// The normal components of a path: the slash-separated segments, with
/// empty segments and lone dots dropped.  A `..` segment stays and is
/// rejected during the walk.
pub open spec fn spec_components(p: Seq<u8>) -> Seq<Seq<u8>>
    decreases p.len(),
    via spec_components_decreases
{
    if p.len() == 0 {
        Seq::empty()
    } else if p[0] == 0x2F {
        spec_components(p.skip(1))
    } else {
        let n = seg_len(p);
        let seg = p.take(n);
        let rest = spec_components(p.skip(n));
        if seg == seq![0x2Eu8] {
            rest
        } else {
            seq![seg] + rest
        }
    }
}

#[via_fn]
proof fn spec_components_decreases(p: Seq<u8>) {
    lemma_seg_len_bounds(p);
    if p.len() != 0 && p[0] != 0x2F {
        lemma_seg_len_bounds(p.skip(1));
        assert(seg_len(p) >= 1);
    }
}

/// If the first `m` bytes of `p` are slash-free and byte `m` (when there
/// is one) is a slash, the first segment is exactly `m` bytes long.
proof fn lemma_seg_len_exact(p: Seq<u8>, m: int)
    requires
        0 <= m <= p.len(),
        forall|k: int| 0 <= k < m ==> p[k] != 0x2F,
        m == p.len() || p[m] == 0x2F,
    ensures
        seg_len(p) == m,
    decreases m,
{
    if m == 0 {
    } else {
        assert(p[0] != 0x2F);
        assert forall|k: int| 0 <= k < m - 1 implies p.skip(1)[k] != 0x2F by {
            assert(p.skip(1)[k] == p[k + 1]);
        }
        if m - 1 < p.skip(1).len() {
            assert(p.skip(1)[m - 1] == p[m]);
        }
        lemma_seg_len_exact(p.skip(1), m - 1);
    }
}

/// The ghost views of a component list.
pub open spec fn comps_views(v: Seq<Vec<u8>>) -> Seq<Seq<u8>> {
    v.map_values(|c: Vec<u8>| c@)
}

/// A fresh byte vector holding the bytes of `s`.
fn slice_to_vec(s: &[u8]) -> (r: Vec<u8>)
    ensures
        r@ == s@,
{
    let mut out: Vec<u8> = Vec::new();
    let mut i: usize = 0;
    let n = s.len();
    while i < n
        invariant
            i <= n,
            n == s@.len(),
            out@ == s@.take(i as int),
        decreases n - i,
    {
        out.push(s[i]);
        proof {
            assert(out@ =~= s@.take(i + 1));
        }
        i = i + 1;
    }
    proof {
        assert(s@.take(n as int) =~= s@);
    }
    out
}

/// Splits `path` into its normal components, per [`spec_components`].
fn split_components(path: &Vec<u8>) -> (r: Vec<Vec<u8>>)
    ensures
        comps_views(r@) == spec_components(path@),
{
    let mut out: Vec<Vec<u8>> = Vec::new();
    let n = path.len();
    let mut i: usize = 0;
    proof {
        assert(path@.skip(0) =~= path@);
        assert(comps_views(out@) =~= Seq::<Seq<u8>>::empty());
        assert(Seq::<Seq<u8>>::empty() + spec_components(path@) =~= spec_components(path@));
    }
    while i < n
        invariant
            i <= n,
            n == path@.len(),
            spec_components(path@) == comps_views(out@) + spec_components(path@.skip(i as int)),
        decreases n - i,
    {
        let ghost rest = path@.skip(i as int);
        proof {
            assert(rest[0] == path@[i as int]);
        }
        if path[i] == 0x2F {
            proof {
                assert(rest.skip(1) =~= path@.skip(i + 1));
            }
            i = i + 1;
        } else {
            let mut j = i;
            while j < n && path[j] != 0x2F
                invariant
                    i <= j <= n,
                    n == path@.len(),
                    forall|k: int| i <= k < j ==> path@[k] != 0x2F,
                decreases n - j,
            {
                j = j + 1;
            }
            proof {
                assert forall|k: int| 0 <= k < j - i implies rest[k] != 0x2F by {
                    assert(rest[k] == path@[i + k]);
                }
                if j < n {
                    assert(rest[j - i] == path@[j as int]);
                }
                lemma_seg_len_exact(rest, j - i);
            }
            let seg = crate::byteops::subvec(path, i, j - i);
            proof {
                assert(seg@ =~= rest.take(j - i));
                assert(rest.skip(j - i) =~= path@.skip(j as int));
            }
            let is_dot = seg.len() == 1 && seg[0] == 0x2E;
            proof {
                if is_dot {
                    assert(seg@ =~= seq![0x2Eu8]);
                } else {
                    if seg@.len() == 1 {
                        assert(seg@[0] != 0x2E);
                    }
                    assert(seg@ != seq![0x2Eu8]) by {
                        if seg@ == seq![0x2Eu8] {
                            assert(seg@.len() == 1 && seg@[0] == 0x2E);
                        }
                    }
                }
            }
            if !is_dot {
                let ghost before = comps_views(out@);
                out.push(seg);
                proof {
                    assert(comps_views(out@) =~= before + seq![seg@]);
                    assert(comps_views(out@) + spec_components(path@.skip(j as int)) =~= before + (
                    seq![seg@] + spec_components(path@.skip(j as int))));
                }
            }
            i = j;
        }
    }
    proof {
        assert(path@.skip(n as int) =~= Seq::<u8>::empty());
        assert(comps_views(out@) + Seq::<Seq<u8>>::empty() =~= comps_views(out@));
    }
    out
}

/// The parent-directory component, which this reader rejects.
pub open spec fn dotdot() -> Seq<u8> {
    seq![0x2Eu8, 0x2Eu8]
}

/// What resolving components `i..` from directory `cur` yields: the found
/// entry, or nothing when a component is missing, names a file in the
/// middle of the path, is a parent-directory step, or a directory on the
/// way cannot be listed.
pub open spec fn spec_resolve<T: BlockDevice>(
    fs: VFat<T>,
    comps: Seq<Seq<u8>>,
    i: int,
    cur: DirV,
) -> Option<EntryV>
    decreases comps.len() - i,
{
    if i < 0 || i >= comps.len() {
        Some(EntryV::Dir(cur))
    } else if comps[i] == dotdot() {
        None
    } else {
        match spec_dir_listing(fs, cur.first_cluster) {
            None => None,
            Some(es) => match spec_find(es, comps[i]) {
                None => None,
                Some(EntryV::Dir(d)) => spec_resolve(fs, comps, i + 1, d),
                Some(EntryV::File(f)) => if i == comps.len() - 1 {
                    Some(EntryV::File(f))
                } else {
                    None
                },
            },
        }
    }
}

/// Whether every directory the walk visits can be listed, so that the
/// walk's outcome is decided by the directory contents alone.
pub open spec fn spec_resolve_readable<T: BlockDevice>(
    fs: VFat<T>,
    comps: Seq<Seq<u8>>,
    i: int,
    cur: DirV,
) -> bool
    decreases comps.len() - i,
{
    if i < 0 || i >= comps.len() {
        true
    } else if comps[i] == dotdot() {
        true
    } else {
        dir_readable(fs, cur.first_cluster) && match spec_find(
            spec_dir_listing(fs, cur.first_cluster).unwrap(),
            comps[i],
        ) {
            None => true,
            Some(EntryV::Dir(d)) => spec_resolve_readable(fs, comps, i + 1, d),
            Some(EntryV::File(_)) => true,
        }
    }
}

/// The error a failed resolution reports: `InvalidInput` for a
/// parent-directory component or a file in the middle of the path,
/// `NotFound` for a missing name.
pub open spec fn spec_resolve_err<T: BlockDevice>(
    fs: VFat<T>,
    comps: Seq<Seq<u8>>,
    i: int,
    cur: DirV,
) -> Error
    decreases comps.len() - i,
{
    if i < 0 || i >= comps.len() {
        Error::InvalidData
    } else if comps[i] == dotdot() {
        Error::InvalidInput
    } else {
        match spec_dir_listing(fs, cur.first_cluster) {
            None => Error::InvalidData,
            Some(es) => match spec_find(es, comps[i]) {
                None => Error::NotFound,
                Some(EntryV::Dir(d)) => spec_resolve_err(fs, comps, i + 1, d),
                Some(EntryV::File(_)) => Error::InvalidInput,
            },
        }
    }
}

/// Resolution, its readability and its error are functions of the
/// preserved view, so a second walk over the same filesystem resolves
/// the same way.
pub proof fn lemma_view_preserved_resolve<T: BlockDevice>(
    pre: VFat<T>,
    post: VFat<T>,
    comps: Seq<Seq<u8>>,
    i: int,
    cur: DirV,
)
    requires
        VFat::view_preserved(pre, post),
    ensures
        spec_resolve(post, comps, i, cur) == spec_resolve(pre, comps, i, cur),
        spec_resolve_readable(post, comps, i, cur) == spec_resolve_readable(pre, comps, i, cur),
        spec_resolve_err(post, comps, i, cur) == spec_resolve_err(pre, comps, i, cur),
    decreases comps.len() - i,
{
    crate::dir::lemma_view_preserved_listing(pre, post);
    if i < 0 || i >= comps.len() {
    } else if comps[i] == dotdot() {
    } else {
        match spec_dir_listing(pre, cur.first_cluster) {
            None => {},
            Some(es) => {
                match spec_find(es, comps[i]) {
                    Some(EntryV::Dir(d)) => {
                        lemma_view_preserved_resolve(pre, post, comps, i + 1, d);
                    },
                    _ => {},
                }
            },
        }
    }
}

/// Walks components `i..` from directory `cur`, resolving each name in
/// turn, per [`spec_resolve`].
fn resolve_from<T: BlockDevice>(
    fs: &mut VFat<T>,
    comps: &Vec<Vec<u8>>,
    i: usize,
    cur: Dir,
) -> (r: Result<Entry, Error>)
    requires
        old(fs).wf(),
        i <= comps@.len(),
    ensures
        final(fs).wf(),
        VFat::view_preserved(*old(fs), *final(fs)),
        ({
            let cv = comps_views(comps@);
            &&& (r matches Ok(e) ==> spec_resolve(*old(fs), cv, i as int, cur@) == Some(e@))
            &&& (spec_resolve_readable(*old(fs), cv, i as int, cur@) ==> match spec_resolve(
                *old(fs),
                cv,
                i as int,
                cur@,
            ) {
                Some(v) => r matches Ok(e) && e@ == v,
                None => r == Err::<Entry, Error>(spec_resolve_err(*old(fs), cv, i as int, cur@)),
            })
            &&& (r matches Err(e) ==> (e == Error::NotFound || e == Error::Io || e
                == Error::InvalidData || e == Error::InvalidInput))
        }),
    decreases comps@.len() - i,
{
    let ghost pre = *old(fs);
    let ghost cv = comps_views(comps@);
    if i == comps.len() {
        return Ok(Entry::Dir(cur));
    }
    let comp = &comps[i];
    proof {
        assert(comp@ == cv[i as int]);
    }
    let is_dotdot = comp.len() == 2 && comp[0] == 0x2E && comp[1] == 0x2E;
    proof {
        if is_dotdot {
            assert(comp@ =~= dotdot());
        } else {
            assert(comp@ != dotdot()) by {
                if comp@ == dotdot() {
                    assert(comp@.len() == 2 && comp@[0] == 0x2E && comp@[1] == 0x2E);
                }
            }
        }
    }
    if is_dotdot {
        return Err(Error::InvalidInput);
    }
    let found = match cur.find_bytes(fs, comp.as_slice()) {
        Ok(e) => e,
        Err(e) => {
            return Err(e);
        },
    };
    let ghost mid = *fs;
    match found {
        Entry::Dir(d) => {
            let r = resolve_from(fs, comps, i + 1, d);
            proof {
                lemma_view_preserved_resolve(pre, mid, cv, i + 1, d@);
            }
            r
        },
        Entry::File(f) => {
            if i + 1 == comps.len() {
                Ok(Entry::File(f))
            } else {
                Err(Error::InvalidInput)
            }
        },
    }
}

impl<T: BlockDevice> VFat<T> {
    /// Opens the entry at the absolute path `path`.
    ///
    /// The path must begin with `/`; the walk starts at the root
    /// directory, resolves each component case-insensitively, and rejects
    /// parent-directory components and files in the middle of the path
    /// with `InvalidInput`.  A missing component fails with `NotFound`.
    pub fn open(&mut self, path: &str) -> (r: Result<Entry, Error>)
        requires
            old(self).wf(),
        ensures
            final(self).wf(),
            Self::view_preserved(*old(self), *final(self)),
            ({
                let pb = path.spec_bytes();
                let comps = spec_components(pb);
                let root = spec_root_dir(*old(self));
                &&& ((pb.len() == 0 || pb[0] != 0x2F) ==> r == Err::<Entry, Error>(
                    Error::InvalidInput,
                ))
                &&& ((pb.len() > 0 && pb[0] == 0x2F) ==> {
                    &&& (r matches Ok(e) ==> spec_resolve(*old(self), comps, 0, root) == Some(e@))
                    &&& (spec_resolve_readable(*old(self), comps, 0, root) ==> match spec_resolve(
                        *old(self),
                        comps,
                        0,
                        root,
                    ) {
                        Some(v) => r matches Ok(e) && e@ == v,
                        None => r == Err::<Entry, Error>(
                            spec_resolve_err(*old(self), comps, 0, root),
                        ),
                    })
                    &&& (r matches Err(e) ==> (e == Error::NotFound || e == Error::Io || e
                        == Error::InvalidData || e == Error::InvalidInput))
                })
            }),
    {
        let pb = slice_to_vec(path.as_bytes());
        if pb.len() == 0 {
            return Err(Error::InvalidInput);
        }
        if pb[0] != 0x2F {
            return Err(Error::InvalidInput);
        }
        let comps = split_components(&pb);
        let cur: Dir = Dir::root_from_vfat(self);
        resolve_from(self, &comps, 0, cur)
    }
}

impl<T: BlockDevice> VFat<T> {
    /// The filesystem is read-only: creating a file is not supported and
    /// always fails.
    pub fn create_file(&self, _path: &str) -> (r: Result<crate::entry::File, Error>)
        ensures
            r == Err::<crate::entry::File, Error>(Error::InvalidInput),
    {
        Err(Error::InvalidInput)
    }

    /// The filesystem is read-only: creating a directory is not supported
    /// and always fails.
    pub fn create_dir(&self, _path: &str, _parents: bool) -> (r: Result<Dir, Error>)
        ensures
            r == Err::<Dir, Error>(Error::InvalidInput),
    {
        Err(Error::InvalidInput)
    }

    /// The filesystem is read-only: renaming is not supported and always
    /// fails.
    pub fn rename(&self, _from: &str, _to: &str) -> (r: Result<(), Error>)
        ensures
            r == Err::<(), Error>(Error::InvalidInput),
    {
        Err(Error::InvalidInput)
    }

    /// The filesystem is read-only: removal is not supported and always
    /// fails.
    pub fn remove(&self, _path: &str, _children: bool) -> (r: Result<(), Error>)
        ensures
            r == Err::<(), Error>(Error::InvalidInput),
    {
        Err(Error::InvalidInput)
    }
}

} // verus!
