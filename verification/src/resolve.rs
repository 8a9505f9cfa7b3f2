//! The resolution of paths to files and directories.

use vstd::prelude::*;
use vstd::string::*;
use crate::device::BlockDevice;
use crate::entry::{parse_entries, Dir, Entry, EntryModel, File};
use crate::error::Error;
use crate::path::{find_index, split_path};
use crate::vfat::VFat;
use crate::volume::Volume;

verus! {

/// The root directory of a volume: the directory without a name that
/// starts at the volume's root cluster.
pub open spec fn root_model(vol: Volume) -> EntryModel {
    EntryModel::Dir {
        name: Seq::empty(),
        cluster: vol.root_dir_cluster,
        attributes: crate::entry::ATTR_DIRECTORY,
    }
}

/// The entries of the directory whose chain starts at cluster `cluster`.
pub open spec fn dir_entries(vol: Volume, cluster: u32) -> Seq<EntryModel> {
    crate::entry::entries(vol.chain_bytes(cluster))
}

/// What the components `names` resolve to from the directory `current`
/// on.
///
/// Without components it is `current`. Else the first component is
/// looked up in `current`: a miss is `NotFound`; a file is the result, whatever components
/// follow it; in a directory the resolution goes on with the rest.
pub open spec fn resolve(vol: Volume, current: EntryModel, names: Seq<Seq<u8>>) -> Result<
    EntryModel,
    Error,
>
    decreases names.len(),
{
    if names.len() == 0 {
        Ok(current)
    } else {
        match crate::path::lookup(dir_entries(vol, current.cluster()), names[0]) {
            None => Err(Error::NotFound),
            Some(found) => match found {
                EntryModel::File { .. } => Ok(found),
                EntryModel::Dir { .. } => resolve(vol, found, names.skip(1)),
            },
        }
    }
}

/// What a path resolves to on a volume, from the root directory on.
pub open spec fn spec_open(vol: Volume, path: Seq<u8>) -> Result<EntryModel, Error> {
    resolve(vol, root_model(vol), crate::path::components(path))
}

/// The bytes of a file: the first `size` bytes of its chain, or all of
/// the chain where it is shorter.
pub open spec fn file_bytes(vol: Volume, cluster: u32, size: u32) -> Seq<u8> {
    let chain = vol.chain_bytes(cluster);
    if size <= chain.len() {
        chain.take(size as int)
    } else {
        chain
    }
}

/// The empty path has no components, so it resolves to the root
/// directory; so does every path made of separators, `.` and `..` alone.
pub proof fn lemma_open_root(vol: Volume, path: Seq<u8>)
    requires
        crate::path::components(path).len() == 0,
    ensures
        spec_open(vol, path) == Ok::<EntryModel, Error>(root_model(vol)),
        crate::path::components(Seq::<u8>::empty()).len() == 0,
{
}

/// A file ends the resolution: the components behind it are ignored.
pub proof fn lemma_file_ends_resolution(
    vol: Volume,
    current: EntryModel,
    names: Seq<Seq<u8>>,
    more: Seq<Seq<u8>>,
)
    requires
        current is Dir,
        resolve(vol, current, names) matches Ok(found) && found is File,
    ensures
        resolve(vol, current, names + more) == resolve(vol, current, names),
    decreases names.len(),
{
    let whole = names + more;
    assert(whole[0] == names[0]);
    assert(whole.skip(1) =~= names.skip(1) + more);
    match crate::path::lookup(dir_entries(vol, current.cluster()), names[0]) {
        None => {},
        Some(found) => match found {
            EntryModel::File { .. } => {},
            EntryModel::Dir { .. } => {
                lemma_file_ends_resolution(vol, found, names.skip(1), more);
            },
        },
    }
}

impl Dir {
    /// The root directory of a volume.
    pub fn root<D: BlockDevice>(fs: &VFat<D>) -> (dir: Dir)
        ensures
            dir@ == root_model(fs@),
    {
        Dir { name: Vec::new(), cluster: fs.root(), attributes: crate::entry::ATTR_DIRECTORY }
    }

    /// The entries of the directory, in the order of their records.
    ///
    /// Reads the whole chain of the directory. Where the device fails, its
    /// error is handed on.
    pub fn entries<D: BlockDevice>(&self, fs: &mut VFat<D>) -> (r: Result<Vec<Entry>, Error>)
        requires
            old(fs).wf(),
        ensures
            final(fs).wf(),
            final(fs)@ == old(fs)@,
            forall|k: u64| #[trigger] final(fs).is_dirty(k) == old(fs).is_dirty(k),
            forall|k: u64| old(fs).is_cached(k) ==> #[trigger] final(fs).is_cached(k),
            old(fs).chain_cached(self.cluster@) ==> r is Ok,
            match r {
                Ok(found) => crate::entry::models(found@) == dir_entries(old(fs)@, self.cluster@),
                Err(e) => e is Io,
            },
    {
        let mut data: Vec<u8> = Vec::new();
        match fs.read_chain(self.cluster, &mut data) {
            Ok(_) => {},
            Err(e) => {
                return Err(e);
            },
        }
        proof {
            assert(Seq::<u8>::empty() + old(fs)@.chain_bytes(self.cluster@) =~= old(
                fs,
            )@.chain_bytes(self.cluster@));
        }
        Ok(parse_entries(data.as_slice()))
    }

    /// The first entry of the directory whose name is `name`, the case of
    /// ASCII letters apart; `NotFound` where there is none.
    pub fn find<D: BlockDevice>(&self, fs: &mut VFat<D>, name: &[u8]) -> (r: Result<Entry, Error>)
        requires
            old(fs).wf(),
        ensures
            final(fs).wf(),
            final(fs)@ == old(fs)@,
            forall|k: u64| #[trigger] final(fs).is_dirty(k) == old(fs).is_dirty(k),
            forall|k: u64| old(fs).is_cached(k) ==> #[trigger] final(fs).is_cached(k),
            old(fs).chain_cached(self.cluster@) ==> !(r matches Err(e) && e is Io),
            match r {
                Ok(entry) => crate::path::lookup(dir_entries(old(fs)@, self.cluster@), name@)
                    == Some(entry@),
                Err(e) => e is Io || (e == Error::NotFound && crate::path::lookup(
                    dir_entries(old(fs)@, self.cluster@),
                    name@,
                ) is None),
            },
    {
        let mut found: Vec<Entry> = match self.entries(fs) {
            Ok(found) => found,
            Err(e) => {
                return Err(e);
            },
        };
        match find_index(&found, name) {
            Some(i) => Ok(found.swap_remove(i)),
            None => Err(Error::NotFound),
        }
    }
}

impl File {
    /// Reads into `buf` the bytes of the file from `offset` on, and
    /// returns how many bytes were read: as many as `buf` holds, or fewer
    /// where the file ends before.
    pub fn read<D: BlockDevice>(&self, fs: &mut VFat<D>, offset: usize, buf: &mut [u8]) -> (r:
        Result<usize, Error>)
        requires
            old(fs).wf(),
        ensures
            final(fs).wf(),
            final(fs)@ == old(fs)@,
            forall|k: u64| #[trigger] final(fs).is_dirty(k) == old(fs).is_dirty(k),
            forall|k: u64| old(fs).is_cached(k) ==> #[trigger] final(fs).is_cached(k),
            final(buf)@.len() == old(buf)@.len(),
            old(fs).chain_cached(self.cluster@) ==> r is Ok,
            match r {
                Ok(count) => {
                    let data = file_bytes(old(fs)@, self.cluster@, self.size);
                    &&& count == crate::bytes::read_len(data.len(), offset as nat, old(buf)@.len())
                    &&& final(buf)@ == crate::bytes::read_result(data, offset as nat, old(buf)@)
                },
                Err(e) => e is Io,
            },
    {
        let size: u64 = self.size as u64;
        let capacity: usize = buf.len();
        let left: u64 = if offset as u64 >= size {
            0
        } else {
            size - offset as u64
        };
        let want: usize = if capacity as u64 <= left {
            capacity
        } else {
            left as usize
        };
        let ghost data = file_bytes(old(fs)@, self.cluster@, self.size);
        let (head, tail) = buf.split_at_mut(want);
        let r = fs.read_cluster(self.cluster, offset, head);
        proof {
            if let Ok(count) = r {
                let whole = head@ + tail@;
                assert(whole =~= crate::bytes::read_result(data, offset as nat, old(buf)@));
            }
        }
        r
    }
}

impl<D: BlockDevice> VFat<D> {
    /// Whether the cache holds every sector that the resolution of `names`
    /// from the directory `current` on reads: the chains of all the
    /// directories that it looks into. No device is asked then.
    pub open spec fn path_cached(&self, current: EntryModel, names: Seq<Seq<u8>>) -> bool
        decreases names.len(),
    {
        if names.len() == 0 {
            true
        } else {
            &&& self.chain_cached(current.cluster())
            &&& match crate::path::lookup(dir_entries(self@, current.cluster()), names[0]) {
                Some(found) => found is Dir ==> self.path_cached(found, names.skip(1)),
                None => true,
            }
        }
    }

    /// Resolves `path` from the root directory on.
    ///
    /// The components of the path are its pieces between `/`; empty
    /// pieces, `.` and `..` are passed over. Each component is looked up in
    /// the directory reached so far. A file ends the walk and is the result,
    /// whatever follows it in the path. A path without components is the
    /// root directory, for which no device is needed. Where the device
    /// fails, its error is handed on.
    pub fn open(&mut self, path: &str) -> (r: Result<Entry, Error>)
        requires
            old(self).wf(),
        ensures
            final(self).wf(),
            final(self)@ == old(self)@,
            forall|k: u64| #[trigger] final(self).is_dirty(k) == old(self).is_dirty(k),
            forall|k: u64| old(self).is_cached(k) ==> #[trigger] final(self).is_cached(k),
            crate::path::components(path.spec_bytes()).len() == 0 ==> r is Ok,
            old(self).path_cached(
                root_model(old(self)@),
                crate::path::components(path.spec_bytes()),
            ) ==> !(r matches Err(e) && e is Io),
            match r {
                Ok(entry) => spec_open(old(self)@, path.spec_bytes()) == Ok::<EntryModel, Error>(
                    entry@,
                ),
                Err(e) => e is Io || (e == Error::NotFound && spec_open(
                    old(self)@,
                    path.spec_bytes(),
                ) == Err::<EntryModel, Error>(Error::NotFound)),
            },
    {
        let ghost vol = self@;
        let pieces: Vec<Vec<u8>> = split_path(path.as_bytes());
        let ghost names = crate::path::components(path.spec_bytes());
        let mut current: Dir = Dir::root(self);
        let mut i: usize = 0;
        proof {
            assert(names.skip(0) =~= names);
        }
        while i < pieces.len()
            invariant
                i <= pieces@.len(),
                names == crate::path::views(pieces@),
                names == crate::path::components(path.spec_bytes()),
                names.len() == pieces@.len(),
                self.wf(),
                self@ == vol,
                vol == old(self)@,
                forall|k: u64| #[trigger] self.is_dirty(k) == old(self).is_dirty(k),
                forall|k: u64| old(self).is_cached(k) ==> #[trigger] self.is_cached(k),
                spec_open(vol, path.spec_bytes()) == resolve(vol, current@, names.skip(i as int)),
                old(self).path_cached(root_model(vol), names) ==> old(self).path_cached(
                    current@,
                    names.skip(i as int),
                ),
            decreases pieces@.len() - i,
        {
            proof {
                let rest = names.skip(i as int);
                assert(rest[0] == pieces@[i as int]@);
                assert(rest.skip(1) =~= names.skip(i + 1));
                if old(self).path_cached(root_model(vol), names) {
                    let chain = vol.chain(current.cluster@);
                    assert(old(self).chain_cached(current.cluster@));
                    assert forall|j: int| 0 <= j < chain.len() implies #[trigger] self.step_cached(
                        chain[j],
                    ) by {
                        assert(old(self).step_cached(chain[j]));
                        assert forall|k: u64| vol.in_cluster(chain[j], k) implies #[trigger] self.is_cached(
                            k,
                        ) by {
                            assert(old(self).is_cached(k));
                        }
                    }
                    assert(self.chain_cached(current.cluster@));
                }
            }
            match current.find(self, pieces[i].as_slice()) {
                Ok(Entry::File(file)) => {
                    return Ok(Entry::File(file));
                },
                Ok(Entry::Dir(dir)) => {
                    current = dir;
                },
                Err(e) => {
                    return Err(e);
                },
            }
            i += 1;
        }
        Ok(Entry::Dir(current))
    }

    /// Refuses to create a file: the volume is read-only. Nothing is
    /// read, written or changed.
    pub fn create_file(&self, path: &str) -> (r: Result<File, Error>)
        ensures
            r == Err::<File, Error>(Error::ReadOnly),
    {
        Err(Error::ReadOnly)
    }

    /// Refuses to create a directory: the volume is read-only. Nothing is
    /// read, written or changed.
    pub fn create_dir(&self, path: &str, parents: bool) -> (r: Result<Dir, Error>)
        ensures
            r == Err::<Dir, Error>(Error::ReadOnly),
    {
        Err(Error::ReadOnly)
    }

    /// Refuses to rename an entry: the volume is read-only. Nothing is
    /// read, written or changed.
    pub fn rename(&self, from: &str, to: &str) -> (r: Result<(), Error>)
        ensures
            r == Err::<(), Error>(Error::ReadOnly),
    {
        Err(Error::ReadOnly)
    }

    /// Refuses to remove an entry: the volume is read-only. Nothing is
    /// read, written or changed.
    pub fn remove(&self, path: &str, children: bool) -> (r: Result<(), Error>)
        ensures
            r == Err::<(), Error>(Error::ReadOnly),
    {
        Err(Error::ReadOnly)
    }
}

} // verus!
