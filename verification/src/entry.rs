//! Files and directories, as the records of a directory describe them.

use vstd::prelude::*;
use crate::bytes::{read_le16, read_le32};
use crate::cluster::Cluster;
use crate::longname::{join_units, read_long_name, read_long_units};

verus! {

/// The number of bytes in one record of a directory.
pub const RECORD_LEN: usize = 32;

/// The attribute bit of a volume label.
pub const ATTR_VOLUME_ID: u8 = 0x08;

/// The attribute bit of a directory.
pub const ATTR_DIRECTORY: u8 = 0x10;

/// The attribute value of a record that holds a piece of a long name.
pub const ATTR_LONG_NAME: u8 = 0x0F;

/// The first byte of a record that ends the directory.
pub const MARK_END: u8 = 0x00;

/// The first byte of a record whose entry was deleted.
pub const MARK_DELETED: u8 = 0xE5;

/// A file: where its chain starts and how many bytes it holds.
#[derive(Debug, Clone, PartialEq, Eq)]
pub struct File {
    /// The name, as `base.ext`, or `base` where there is no extension.
    pub name: Vec<u8>,
    /// The cluster at which the file's chain starts.
    pub cluster: Cluster,
    /// The number of bytes in the file.
    pub size: u32,
    /// The attribute bits of the record.
    pub attributes: u8,
}

/// A directory: where its chain starts.
#[derive(Debug, Clone, PartialEq, Eq)]
pub struct Dir {
    /// The name; empty for the root directory.
    pub name: Vec<u8>,
    /// The cluster at which the directory's chain starts.
    pub cluster: Cluster,
    /// The attribute bits of the record.
    pub attributes: u8,
}

/// What a path resolves to.
#[derive(Debug, Clone, PartialEq, Eq)]
pub enum Entry {
    /// A file.
    File(File),
    /// A directory.
    Dir(Dir),
}

/// The mathematical model of an entry.
pub enum EntryModel {
    /// A file.
    File { name: Seq<u8>, cluster: u32, size: u32, attributes: u8 },
    /// A directory.
    Dir { name: Seq<u8>, cluster: u32, attributes: u8 },
}

impl EntryModel {
    /// The name of the entry.
    pub open spec fn name(self) -> Seq<u8> {
        match self {
            EntryModel::File { name, .. } => name,
            EntryModel::Dir { name, .. } => name,
        }
    }

    /// The number of the cluster at which the entry's chain starts.
    pub open spec fn cluster(self) -> u32 {
        match self {
            EntryModel::File { cluster, .. } => cluster,
            EntryModel::Dir { cluster, .. } => cluster,
        }
    }
}

impl View for File {
    type V = EntryModel;

    open spec fn view(&self) -> EntryModel {
        EntryModel::File {
            name: self.name@,
            cluster: self.cluster@,
            size: self.size,
            attributes: self.attributes,
        }
    }
}

impl View for Dir {
    type V = EntryModel;

    open spec fn view(&self) -> EntryModel {
        EntryModel::Dir { name: self.name@, cluster: self.cluster@, attributes: self.attributes }
    }
}

impl View for Entry {
    type V = EntryModel;

    open spec fn view(&self) -> EntryModel {
        match self {
            Entry::File(file) => file@,
            Entry::Dir(dir) => dir@,
        }
    }
}

/// The models of a sequence of entries.
pub open spec fn models(entries: Seq<Entry>) -> Seq<EntryModel> {
    Seq::new(entries.len(), |i: int| entries[i]@)
}

/// `s` without the spaces at its end.
pub open spec fn trim_end(s: Seq<u8>) -> Seq<u8>
    decreases s.len(),
{
    if s.len() > 0 && s.last() == 0x20 {
        trim_end(s.drop_last())
    } else {
        s
    }
}

/// The name that a record stores in its 8 bytes of base name and 3 bytes
/// of extension, both padded with spaces: `base.ext`, or `base` where
/// the extension is empty.
pub open spec fn short_name(record: Seq<u8>) -> Seq<u8> {
    let base = trim_end(record.subrange(0, 8));
    let ext = trim_end(record.subrange(8, 11));
    if ext.len() == 0 {
        base
    } else {
        base + seq![0x2Eu8] + ext
    }
}

/// The cluster number that a record stores: its high half at byte 20,
/// its low half at byte 26, the four reserved bits dropped.
pub open spec fn record_cluster(record: Seq<u8>) -> u32 {
    Cluster::spec_from(
        (crate::bytes::le16(record, 20) * 0x1_0000 + crate::bytes::le16(record, 26)) as u32,
    )@
}

/// The name of the entry that a record describes, where `pending` are
/// the units of the long-name records in front of it: the long name if
/// they spell one, else the short name.
pub open spec fn entry_name(record: Seq<u8>, pending: Seq<u16>) -> Seq<u8> {
    if crate::longname::long_name(pending).len() > 0 {
        crate::longname::long_name(pending)
    } else {
        short_name(record)
    }
}

/// The entry that a record of 32 bytes describes, where `pending` are
/// the units of the long-name records in front of it.
pub open spec fn record_entry(record: Seq<u8>, pending: Seq<u16>) -> EntryModel {
    if record[11] & ATTR_DIRECTORY != 0 {
        EntryModel::Dir {
            name: entry_name(record, pending),
            cluster: record_cluster(record),
            attributes: record[11],
        }
    } else {
        EntryModel::File {
            name: entry_name(record, pending),
            cluster: record_cluster(record),
            size: crate::bytes::le32(record, 28) as u32,
            attributes: record[11],
        }
    }
}

/// Record `i` of the directory bytes `data`.
pub open spec fn record_at(data: Seq<u8>, i: nat) -> Seq<u8> {
    data.subrange((32 * i) as int, (32 * i + 32) as int)
}

/// The entries of the directory bytes `data` from record `i` on, where
/// `pending` are the units of the long-name records just before it.
///
/// The directory ends with the first record whose first byte is 0, or
/// with the last whole record. A deleted record and the volume's label
/// are passed over, and drop the pending units. A long-name record is no
/// entry: its units go in front of the pending ones, since the pieces of
/// a name are stored last piece first. Every other record is an entry.
pub open spec fn entries_from(data: Seq<u8>, i: nat, pending: Seq<u16>) -> Seq<EntryModel>
    decreases data.len() - 32 * i,
{
    if 32 * i + 32 > data.len() {
        Seq::empty()
    } else {
        let record = record_at(data, i);
        if record[0] == MARK_END {
            Seq::empty()
        } else if record[0] == MARK_DELETED {
            entries_from(data, i + 1, Seq::empty())
        } else if record[11] == ATTR_LONG_NAME {
            entries_from(data, i + 1, crate::longname::long_units(record) + pending)
        } else if record[11] & ATTR_VOLUME_ID != 0 {
            entries_from(data, i + 1, Seq::empty())
        } else {
            seq![record_entry(record, pending)] + entries_from(data, i + 1, Seq::empty())
        }
    }
}

/// The entries of the directory bytes `data`.
pub open spec fn entries(data: Seq<u8>) -> Seq<EntryModel> {
    entries_from(data, 0, Seq::empty())
}

/// Copies the bytes of `src` from `from` up to `to`, without the spaces
/// at their end, to the end of `name`.
fn push_trimmed(name: &mut Vec<u8>, src: &[u8], from: usize, to: usize)
    requires
        from <= to <= src@.len(),
    ensures
        final(name)@ == old(name)@ + trim_end(src@.subrange(from as int, to as int)),
{
    let mut end: usize = to;
    while end > from && src[end - 1] == 0x20
        invariant
            from <= end <= to <= src@.len(),
            trim_end(src@.subrange(from as int, to as int)) == trim_end(
                src@.subrange(from as int, end as int),
            ),
        decreases end,
    {
        proof {
            let s = src@.subrange(from as int, end as int);
            assert(s.last() == src@[end - 1]);
            assert(s.drop_last() =~= src@.subrange(from as int, end - 1));
        }
        end -= 1;
    }
    proof {
        let s = src@.subrange(from as int, end as int);
        if s.len() > 0 {
            assert(s.last() == src@[end - 1]);
        }
        assert(trim_end(s) == s);
    }
    let mut i: usize = from;
    while i < end
        invariant
            from <= i <= end <= src@.len(),
            name@ == old(name)@ + src@.subrange(from as int, i as int),
        decreases end - i,
    {
        name.push(src[i]);
        i += 1;
        assert(name@ =~= old(name)@ + src@.subrange(from as int, i as int));
    }
}

/// Decodes the name of a record.
pub fn read_short_name(record: &[u8]) -> (name: Vec<u8>)
    requires
        record@.len() >= 11,
    ensures
        name@ == short_name(record@),
{
    let mut name: Vec<u8> = Vec::new();
    push_trimmed(&mut name, record, 0, 8);
    let mut ext: Vec<u8> = Vec::new();
    push_trimmed(&mut ext, record, 8, 11);
    if ext.len() > 0 {
        name.push(0x2E);
        crate::device::append(&mut name, ext.as_slice());
    }
    proof {
        let base = trim_end(record@.subrange(0, 8));
        let e = trim_end(record@.subrange(8, 11));
        assert(Seq::<u8>::empty() + base =~= base);
        assert(Seq::<u8>::empty() + e =~= e);
        if e.len() > 0 {
            assert(name@ =~= base + seq![0x2Eu8] + e);
        }
    }
    name
}

/// Decodes the record of an entry, where `pending` are the units of the
/// long-name records in front of it.
pub fn read_record(record: &[u8], pending: &[u16]) -> (entry: Entry)
    requires
        record@.len() == 32,
    ensures
        entry@ == record_entry(record@, pending@),
{
    let long = read_long_name(pending);
    let name = if long.len() > 0 {
        long
    } else {
        read_short_name(record)
    };
    let high: u32 = read_le16(record, 20) as u32;
    let low: u32 = read_le16(record, 26) as u32;
    let cluster = Cluster::from(high * 0x1_0000 + low);
    let attributes: u8 = record[11];
    if attributes & ATTR_DIRECTORY != 0 {
        Entry::Dir(Dir { name, cluster, attributes })
    } else {
        Entry::File(File { name, cluster, size: read_le32(record, 28), attributes })
    }
}

/// Decodes every entry of a directory's bytes.
pub fn parse_entries(data: &[u8]) -> (found: Vec<Entry>)
    ensures
        models(found@) == entries(data@),
{
    let mut found: Vec<Entry> = Vec::new();
    let mut pending: Vec<u16> = Vec::new();
    let total: usize = data.len();
    let mut i: usize = 0;
    let mut done: bool = false;
    proof {
        assert(models(found@) =~= Seq::<EntryModel>::empty());
        assert(Seq::<EntryModel>::empty() + entries_from(data@, 0, pending@) =~= entries(data@));
    }
    while !done && total - 32 * i >= 32
        invariant
            total == data@.len(),
            32 * i <= total,
            !done ==> entries(data@) == models(found@) + entries_from(
                data@,
                i as nat,
                pending@,
            ),
            done ==> entries(data@) == models(found@),
        decreases
                (if done {
                    0int
                } else {
                    total - 32 * i + 1
                }),
    {
        let record: &[u8] = vstd::slice::slice_subrange(data, 32 * i, 32 * i + 32);
        assert(record@ == record_at(data@, i as nat));
        if record[0] == MARK_END {
            done = true;
            assert(models(found@) + Seq::<EntryModel>::empty() =~= models(found@));
        } else {
            if record[0] == MARK_DELETED {
                pending = Vec::new();
            } else if record[11] == ATTR_LONG_NAME {
                pending = join_units(read_long_units(record), &pending);
            } else if record[11] & ATTR_VOLUME_ID != 0 {
                pending = Vec::new();
            } else {
                let ghost before = found@;
                let ghost units = pending@;
                let entry = read_record(record, pending.as_slice());
                found.push(entry);
                pending = Vec::new();
                proof {
                    let rest = entries_from(data@, (i + 1) as nat, Seq::empty());
                    assert(models(found@) =~= models(before).push(record_entry(record@, units)));
                    assert(models(before) + (seq![record_entry(record@, units)] + rest) =~= models(
                        found@,
                    ) + rest);
                }
            }
            i += 1;
        }
    }
    proof {
        if !done {
            assert(models(found@) + Seq::<EntryModel>::empty() =~= models(found@));
        }
    }
    found
}

} // verus!
