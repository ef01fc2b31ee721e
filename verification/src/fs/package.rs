//! The asset package: many files in one buffer, behind an index.
//!
//! ```text
//! [8 bytes: meta_len, big-endian u64]
//! meta_len bytes of records, each:
//!   [8 bytes: path_len, big-endian u64]
//!   [path_len bytes: UTF-8 path]
//!   [8 bytes: last_modified, big-endian i64, epoch seconds]
//!   [8 bytes: length, big-endian u64]
//!   [8 bytes: start_offset, big-endian u64, relative to the data region]
//! [the data region: the files back to back]
//! ```

use crate::error::Error;
use crate::fs::order::{file_views, key, picked, sort_by_path, sorted_order, FileView, PackageFile};
use crate::outside::{
    be_bytes, be_value, put_be_i64, put_be_u64, read_be_i64, read_be_u64, signed_of,
    text_from_utf8, unsigned_of,
};
use vstd::prelude::*;
use vstd::slice::slice_subrange;
use vstd::utf8::{decode_utf8, encode_utf8, valid_utf8};

verus! {

/// One indexed file: where its bytes lie in the data region, and when it
/// was last modified.
#[derive(Debug)]
pub struct PackageEntry {
    /// The path of the file, relative to the root, separated by `/`.
    pub path: String,
    /// The modification time in seconds after the Unix epoch.
    pub last_modified: i64,
    /// The number of bytes of the file.
    pub length: u64,
    /// The position of the first byte of the file in the data region.
    pub start_offset: u64,
}

/// A `PackageEntry` as plain values.
pub struct EntryView {
    pub path: Seq<char>,
    pub last_modified: i64,
    pub length: u64,
    pub start_offset: u64,
}

impl View for PackageEntry {
    type V = EntryView;

    open spec fn view(&self) -> EntryView {
        EntryView {
            path: self.path@,
            last_modified: self.last_modified,
            length: self.length,
            start_offset: self.start_offset,
        }
    }
}

impl EntryView {
    /// The bytes of the entry end inside a data region of `size` bytes.
    pub open spec fn within(self, size: nat) -> bool {
        self.start_offset + self.length <= size
    }

    /// The bytes of two entries have no position in common.
    pub open spec fn disjoint(self, other: EntryView) -> bool {
        self.start_offset + self.length <= other.start_offset || other.start_offset
            + other.length <= self.start_offset
    }
}

/// The bytes of one metadata record.
pub open spec fn record_bytes(entry: EntryView) -> Seq<u8> {
    be_bytes(encode_utf8(entry.path).len(), 8) + encode_utf8(entry.path) + be_bytes(
        unsigned_of(entry.last_modified as int),
        8,
    ) + be_bytes(entry.length as nat, 8) + be_bytes(entry.start_offset as nat, 8)
}

/// The bytes of a run of metadata records.
pub open spec fn records_bytes(entries: Seq<EntryView>) -> Seq<u8>
    decreases entries.len(),
{
    if entries.len() == 0 {
        Seq::empty()
    } else {
        records_bytes(entries.drop_last()) + record_bytes(entries.last())
    }
}

/// The record at the start of `area` and the number of bytes it takes up;
/// nothing where `area` is too short for a whole record or the path is not
/// valid UTF-8.
pub open spec fn parse_record(area: Seq<u8>) -> Option<(EntryView, int)> {
    if area.len() < 8 {
        None
    } else {
        let path_len = be_value(area.take(8)) as int;
        if area.len() < 32 + path_len {
            None
        } else if !valid_utf8(area.subrange(8, 8 + path_len)) {
            None
        } else {
            Some(
                (
                    EntryView {
                        path: decode_utf8(area.subrange(8, 8 + path_len)),
                        last_modified: signed_of(
                            be_value(area.subrange(8 + path_len, 16 + path_len)),
                        ) as i64,
                        length: be_value(area.subrange(16 + path_len, 24 + path_len)) as u64,
                        start_offset: be_value(
                            area.subrange(24 + path_len, 32 + path_len),
                        ) as u64,
                    },
                    32 + path_len,
                ),
            )
        }
    }
}

/// The records that `area` is made of, in order; nothing unless `area` is
/// whole records from its first byte to its last.
pub open spec fn parse_records(area: Seq<u8>) -> Option<Seq<EntryView>>
    decreases area.len(),
{
    if area.len() == 0 {
        Some(Seq::empty())
    } else {
        match parse_record(area) {
            Some((entry, used)) => if 0 < used <= area.len() {
                match parse_records(area.skip(used)) {
                    Some(rest) => Some(seq![entry] + rest),
                    None => None,
                }
            } else {
                None
            },
            None => None,
        }
    }
}

/// Every record ends inside a data region of `size` bytes.
pub open spec fn all_within(records: Seq<EntryView>, size: nat) -> bool {
    forall|i: int| 0 <= i < records.len() ==> (#[trigger] records[i]).within(size)
}

/// The entry that a lookup of `path` finds: the last record with that path.
pub open spec fn find_entry(records: Seq<EntryView>, path: Seq<char>) -> Option<EntryView>
    decreases records.len(),
{
    if records.len() == 0 {
        None
    } else if records.last().path == path {
        Some(records.last())
    } else {
        find_entry(records.drop_last(), path)
    }
}

/// A decoded package as plain values: the records in the order in which the
/// container holds them, and the data region.
pub struct PackageView {
    pub records: Seq<EntryView>,
    pub data: Seq<u8>,
}

impl PackageView {
    /// The entry of `path`. Of two records with one path the later one
    /// counts.
    pub open spec fn entry(self, path: Seq<char>) -> Option<EntryView> {
        find_entry(self.records, path)
    }

    /// The bytes of the file at `path`.
    pub open spec fn content(self, path: Seq<char>) -> Option<Seq<u8>> {
        match self.entry(path) {
            Some(entry) => Some(
                self.data.subrange(
                    entry.start_offset as int,
                    entry.start_offset + entry.length,
                ),
            ),
            None => None,
        }
    }

    /// Every record ends inside the data region.
    pub open spec fn well_formed(self) -> bool {
        all_within(self.records, self.data.len())
    }
}

/// What decoding the container `bytes` yields.
///
/// The first eight bytes give the length of the metadata area, which must
/// lie inside the buffer and be whole records from end to end. What follows
/// the area is the data region, and every record must end inside it.
pub open spec fn decode(bytes: Seq<u8>) -> Option<PackageView> {
    if bytes.len() < 8 {
        None
    } else {
        let meta_len = be_value(bytes.take(8)) as int;
        if bytes.len() < 8 + meta_len {
            None
        } else {
            match parse_records(bytes.subrange(8, 8 + meta_len)) {
                Some(records) => {
                    let data = bytes.skip(8 + meta_len);
                    if all_within(records, data.len()) {
                        Some(PackageView { records, data })
                    } else {
                        None
                    }
                },
                None => None,
            }
        }
    }
}

/// The views of a run of entries.
pub open spec fn entry_views(entries: Seq<PackageEntry>) -> Seq<EntryView> {
    entries.map_values(|entry: PackageEntry| entry@)
}

/// A lookup finds nothing but what is among the records.
pub proof fn lemma_entry_among(records: Seq<EntryView>, path: Seq<char>)
    ensures
        find_entry(records, path) matches Some(entry) ==> exists|i: int|
            0 <= i < records.len() && records[i] == entry && entry.path == path,
    decreases records.len(),
{
    if records.len() > 0 {
        if records.last().path == path {
            assert(records[records.len() - 1] == records.last());
        } else {
            lemma_entry_among(records.drop_last(), path);
            if let Some(entry) = find_entry(records, path) {
                let i = choose|i: int|
                    0 <= i < records.drop_last().len() && records.drop_last()[i] == entry
                        && entry.path == path;
                assert(records[i] == entry);
            }
        }
    }
}

/// Reads the record at position `pos` of the metadata area.
fn read_record(meta: &[u8], pos: usize) -> (r: Option<(PackageEntry, usize)>)
    requires
        pos <= meta@.len(),
    ensures
        match r {
            Some((entry, used)) => parse_record(meta@.skip(pos as int)) == Some(
                (entry@, used as int),
            ) && 32 <= used <= meta@.len() - pos,
            None => parse_record(meta@.skip(pos as int)) is None,
        },
{
    let ghost area = meta@.skip(pos as int);
    let left: usize = meta.len() - pos;
    if left < 32 {
        return None;
    }
    let field = slice_subrange(meta, pos, pos + 8);
    assert(field@.take(8) == area.take(8));
    let path_len = read_be_u64(field);
    if ((left - 32) as u64) < path_len {
        return None;
    }
    let path_len: usize = path_len as usize;
    let path_bytes = slice_subrange(meta, pos + 8, pos + 8 + path_len);
    assert(path_bytes@ == area.subrange(8, 8 + path_len));
    let path = match text_from_utf8(path_bytes) {
        Some(path) => path,
        None => {
            return None;
        },
    };
    let at: usize = pos + 8 + path_len;
    let field = slice_subrange(meta, at, at + 8);
    assert(field@.take(8) == area.subrange(8 + path_len, 16 + path_len));
    let last_modified = read_be_i64(field);
    let field = slice_subrange(meta, at + 8, at + 16);
    assert(field@.take(8) == area.subrange(16 + path_len, 24 + path_len));
    let length = read_be_u64(field);
    let field = slice_subrange(meta, at + 16, at + 24);
    assert(field@.take(8) == area.subrange(24 + path_len, 32 + path_len));
    let start_offset = read_be_u64(field);
    Some((PackageEntry { path, last_modified, length, start_offset }, 32 + path_len))
}

/// The decoded in-memory form of the container: a path index plus a
/// reference to the raw concatenated file bytes.
pub struct Package {
    files: Vec<PackageEntry>,
    data: &'static [u8],
}

impl View for Package {
    type V = PackageView;

    closed spec fn view(&self) -> PackageView {
        PackageView { records: entry_views(self.files@), data: self.data@ }
    }
}

impl Package {
    #[verifier::type_invariant]
    spec fn inv(self) -> bool {
        self@.well_formed()
    }

    /// Decodes a container.
    ///
    /// Fails with `MalformedPackage` exactly where `decode` yields nothing.
    pub fn from_bytes(bytes: &'static [u8]) -> (r: Result<Package, Error>)
        ensures
            match r {
                Ok(package) => decode(bytes@) == Some(package@) && package@.well_formed(),
                Err(e) => e == Error::MalformedPackage && decode(bytes@) is None,
            },
    {
        if bytes.len() < 8 {
            return Err(Error::MalformedPackage);
        }
        let head = slice_subrange(bytes, 0, 8);
        assert(head@.take(8) == bytes@.take(8));
        let meta_len = read_be_u64(head);
        if ((bytes.len() - 8) as u64) < meta_len {
            return Err(Error::MalformedPackage);
        }
        let meta_len: usize = meta_len as usize;
        let meta = slice_subrange(bytes, 8, 8 + meta_len);
        let data = slice_subrange(bytes, 8 + meta_len, bytes.len());
        assert(data@ == bytes@.skip(8 + meta_len));
        let mut files: Vec<PackageEntry> = Vec::new();
        let mut pos: usize = 0;
        assert(meta@.skip(0) == meta@);
        proof {
            if let Some(all) = parse_records(meta@) {
                assert(Seq::<EntryView>::empty() + all == all);
            }
        }
        while pos < meta_len
            invariant
                pos <= meta_len,
                meta_len == meta@.len(),
                bytes@.len() >= 8 + meta_len,
                be_value(bytes@.take(8)) == meta_len,
                meta@ == bytes@.subrange(8, 8 + meta_len),
                data@ == bytes@.skip(8 + meta_len),
                match parse_records(meta@.skip(pos as int)) {
                    Some(rest) => parse_records(meta@) == Some(entry_views(files@) + rest),
                    None => parse_records(meta@) is None,
                },
                all_within(entry_views(files@), data@.len()),
            decreases meta_len - pos,
        {
            let (entry, used) = match read_record(meta, pos) {
                Some(record) => record,
                None => {
                    return Err(Error::MalformedPackage);
                },
            };
            proof {
                let area = meta@.skip(pos as int);
                let done = entry_views(files@);
                let after = entry_views(files@.push(entry));
                assert(area.skip(used as int) == meta@.skip(pos + used));
                assert(after == done.push(entry@));
                if let Some(rest) = parse_records(meta@.skip(pos + used)) {
                    assert(done + (seq![entry@] + rest) == after + rest);
                    assert((done + (seq![entry@] + rest))[done.len() as int] == entry@);
                }
            }
            if entry.start_offset > data.len() as u64 || entry.length > data.len() as u64
                - entry.start_offset {
                return Err(Error::MalformedPackage);
            }
            files.push(entry);
            pos = pos + used;
        }
        assert(meta@.skip(pos as int).len() == 0);
        assert(entry_views(files@) + Seq::<EntryView>::empty() == entry_views(files@));
        Ok(Package { files, data })
    }

    /// Looks up the entry of `path`.
    pub fn get(&self, path: &str) -> (r: Option<&PackageEntry>)
        ensures
            match r {
                Some(entry) => self@.entry(path@) == Some(entry@),
                None => self@.entry(path@) is None,
            },
    {
        let wanted = path.to_owned();
        let mut i: usize = self.files.len();
        assert(entry_views(self.files@).take(i as int) == entry_views(self.files@));
        while i > 0
            invariant
                i <= self.files@.len(),
                wanted@ == path@,
                find_entry(entry_views(self.files@), path@) == find_entry(
                    entry_views(self.files@).take(i as int),
                    path@,
                ),
            decreases i,
        {
            let ghost upto = entry_views(self.files@).take(i as int);
            assert(upto.last() == self.files@[i - 1]@);
            assert(upto.drop_last() == entry_views(self.files@).take(i - 1));
            if self.files[i - 1].path == wanted {
                return Some(&self.files[i - 1]);
            }
            i = i - 1;
        }
        None
    }

    /// The bytes of the file at `path`: a slice of the data region, not a
    /// copy. Fails with `NotFound` where the index has no such path.
    pub fn open(&self, path: &str) -> (r: Result<&'static [u8], Error>)
        ensures
            match r {
                Ok(bytes) => self@.content(path@) == Some(bytes@),
                Err(e) => e == Error::NotFound && self@.content(path@) is None,
            },
    {
        proof {
            use_type_invariant(self);
            lemma_entry_among(self@.records, path@);
        }
        match self.get(path) {
            Some(file) => {
                proof {
                    let i = choose|i: int| 0 <= i < self@.records.len() && self@.records[i] == file@;
                    assert(self@.records[i].within(self.data@.len()));
                }
                let size: usize = self.data.len();
                let start: usize = file.start_offset as usize;
                let end: usize = (file.start_offset + file.length) as usize;
                Ok(slice_subrange(self.data, start, end))
            },
            None => Err(Error::NotFound),
        }
    }
}

/// The length of the metadata area for `files`: 32 bytes and the path for
/// each.
pub open spec fn meta_size(files: Seq<FileView>) -> nat
    decreases files.len(),
{
    if files.len() == 0 {
        0
    } else {
        meta_size(files.drop_last()) + 32 + key(files.last()).len()
    }
}

/// The length of the data region for `files`.
pub open spec fn data_size(files: Seq<FileView>) -> nat
    decreases files.len(),
{
    if files.len() == 0 {
        0
    } else {
        data_size(files.drop_last()) + files.last().content.len()
    }
}

/// The bytes of `files`, back to back.
pub open spec fn contents(files: Seq<FileView>) -> Seq<u8>
    decreases files.len(),
{
    if files.len() == 0 {
        Seq::empty()
    } else {
        contents(files.drop_last()) + files.last().content
    }
}

/// The records for `files` laid out in the given order: each file starts
/// where the one before it ends.
pub open spec fn layout(files: Seq<FileView>) -> Seq<EntryView> {
    Seq::new(
        files.len(),
        |i: int|
            EntryView {
                path: files[i].path,
                last_modified: files[i].last_modified,
                length: files[i].content.len() as u64,
                start_offset: data_size(files.take(i)) as u64,
            },
    )
}

/// The container for files that are already in order: the header, the
/// records, the data region.
pub open spec fn archive(sorted: Seq<FileView>) -> Seq<u8> {
    be_bytes(meta_size(sorted), 8) + records_bytes(layout(sorted)) + contents(sorted)
}

/// The container for `files`, whatever order they are given in.
pub open spec fn package_bytes(files: Seq<FileView>) -> Seq<u8> {
    archive(sort_by_path(files))
}

/// The number of bytes of the container for `files`.
pub open spec fn package_size(files: Seq<FileView>) -> nat {
    8 + meta_size(sort_by_path(files)) + data_size(sort_by_path(files))
}

/// The sizes of a run of files are no less than those of its beginning.
pub proof fn lemma_sizes_grow(files: Seq<FileView>, k: int)
    requires
        0 <= k <= files.len(),
    ensures
        meta_size(files.take(k)) <= meta_size(files),
        data_size(files.take(k)) <= data_size(files),
    decreases files.len(),
{
    if k == files.len() {
        assert(files.take(k) == files);
    } else {
        assert(files.drop_last().take(k) == files.take(k));
        lemma_sizes_grow(files.drop_last(), k);
    }
}

/// The sizes of the first `k + 1` files from those of the first `k`.
proof fn lemma_sizes_step(files: Seq<FileView>, k: int)
    requires
        0 <= k < files.len(),
    ensures
        meta_size(files.take(k + 1)) == meta_size(files.take(k)) + 32 + key(files[k]).len(),
        data_size(files.take(k + 1)) == data_size(files.take(k)) + files[k].content.len(),
        contents(files.take(k + 1)) == contents(files.take(k)) + files[k].content,
{
    assert(files.take(k + 1).drop_last() == files.take(k));
    assert(files.take(k + 1).last() == files[k]);
}

/// Adds up the sizes of the metadata area and of the data region for the
/// files in the given order; nothing where a sum leaves 64 bits.
fn measure(files: &Vec<PackageFile>, order: &Vec<usize>) -> (r: Option<(u64, u64)>)
    requires
        order@.len() == files@.len(),
        forall|k: int| 0 <= k < order@.len() ==> (#[trigger] order@[k]) < files@.len(),
    ensures
        match r {
            Some((meta, data)) => meta == meta_size(picked(file_views(files@), order@)) && data
                == data_size(picked(file_views(files@), order@)),
            None => meta_size(picked(file_views(files@), order@)) > u64::MAX || data_size(
                picked(file_views(files@), order@),
            ) > u64::MAX,
        },
{
    let ghost sorted = picked(file_views(files@), order@);
    let mut meta: u64 = 0;
    let mut data: u64 = 0;
    let mut k: usize = 0;
    while k < order.len()
        invariant
            k <= order@.len() == files@.len(),
            forall|k: int| 0 <= k < order@.len() ==> (#[trigger] order@[k]) < files@.len(),
            sorted == picked(file_views(files@), order@),
            meta == meta_size(sorted.take(k as int)),
            data == data_size(sorted.take(k as int)),
        decreases order@.len() - k,
    {
        let file = &files[order[k]];
        assert(sorted[k as int] == file@);
        let path_len = file.path.as_str().as_bytes().len();
        proof {
            lemma_sizes_step(sorted, k as int);
            lemma_sizes_grow(sorted, k + 1);
        }
        if path_len as u64 > u64::MAX - 32 || meta > u64::MAX - 32 - path_len as u64 {
            return None;
        }
        if data > u64::MAX - file.content.len() as u64 {
            return None;
        }
        meta = meta + 32 + path_len as u64;
        data = data + file.content.len() as u64;
        k = k + 1;
    }
    assert(sorted.take(k as int) == sorted);
    Some((meta, data))
}

/// Appends the metadata records for the files in the given order.
fn write_records(files: &Vec<PackageFile>, order: &Vec<usize>, writer: &mut Vec<u8>)
    requires
        order@.len() == files@.len(),
        forall|k: int| 0 <= k < order@.len() ==> (#[trigger] order@[k]) < files@.len(),
        data_size(picked(file_views(files@), order@)) <= u64::MAX,
    ensures
        final(writer)@ == old(writer)@ + records_bytes(
            layout(picked(file_views(files@), order@)),
        ),
{
    let ghost sorted = picked(file_views(files@), order@);
    let ghost start = writer@;
    let mut data_offset: u64 = 0;
    let mut k: usize = 0;
    assert(writer@ == start + records_bytes(layout(sorted).take(0)));
    while k < order.len()
        invariant
            k <= order@.len() == files@.len(),
            forall|k: int| 0 <= k < order@.len() ==> (#[trigger] order@[k]) < files@.len(),
            sorted == picked(file_views(files@), order@),
            data_size(sorted) <= u64::MAX,
            data_offset == data_size(sorted.take(k as int)),
            writer@ == start + records_bytes(layout(sorted).take(k as int)),
        decreases order@.len() - k,
    {
        let file = &files[order[k]];
        let path = file.path.as_str().as_bytes();
        let ghost entry = layout(sorted)[k as int];
        let ghost before = writer@;
        proof {
            assert(sorted[k as int] == file@);
            lemma_sizes_step(sorted, k as int);
            lemma_sizes_grow(sorted, k + 1);
            assert(layout(sorted).take(k + 1).drop_last() == layout(sorted).take(k as int));
            assert(layout(sorted).take(k + 1).last() == entry);
        }
        // written in the following order: path_len, path, last_modified, len, start
        put_be_u64(writer, path.len() as u64);
        writer.extend_from_slice(path);
        put_be_i64(writer, file.last_modified);
        put_be_u64(writer, file.content.len() as u64);
        put_be_u64(writer, data_offset);
        assert(writer@ == before + record_bytes(entry));
        assert(start + records_bytes(layout(sorted).take(k as int)) + record_bytes(entry) == start
            + (records_bytes(layout(sorted).take(k as int)) + record_bytes(entry)));
        data_offset = data_offset + file.content.len() as u64;
        k = k + 1;
    }
    assert(layout(sorted).take(k as int) == layout(sorted));
}

/// Appends the bytes of the files in the given order.
fn write_contents(files: &Vec<PackageFile>, order: &Vec<usize>, writer: &mut Vec<u8>)
    requires
        order@.len() == files@.len(),
        forall|k: int| 0 <= k < order@.len() ==> (#[trigger] order@[k]) < files@.len(),
    ensures
        final(writer)@ == old(writer)@ + contents(picked(file_views(files@), order@)),
{
    let ghost sorted = picked(file_views(files@), order@);
    let ghost start = writer@;
    let mut k: usize = 0;
    assert(writer@ == start + contents(sorted.take(0)));
    while k < order.len()
        invariant
            k <= order@.len() == files@.len(),
            forall|k: int| 0 <= k < order@.len() ==> (#[trigger] order@[k]) < files@.len(),
            sorted == picked(file_views(files@), order@),
            writer@ == start + contents(sorted.take(k as int)),
        decreases order@.len() - k,
    {
        let file = &files[order[k]];
        proof {
            assert(sorted[k as int] == file@);
            lemma_sizes_step(sorted, k as int);
            assert(start + contents(sorted.take(k as int)) + file@.content == start + (contents(
                sorted.take(k as int),
            ) + file@.content));
        }
        writer.extend_from_slice(file.content.as_slice());
        k = k + 1;
    }
    assert(sorted.take(k as int) == sorted);
}

/// Encodes `input_files` into one container and appends it to `writer`.
///
/// The files are written in the order of their paths, and files with one
/// path in the order in which they are given. So the result does not
/// depend on the order of the list, unless the list holds two different
/// files under one path. Fails with `TooLarge`,
/// and leaves `writer` alone, exactly where the container would not fit in
/// memory behind what `writer` holds.
pub fn write_package(input_files: &Vec<PackageFile>, writer: &mut Vec<u8>) -> (r: Result<
    (),
    Error,
>)
    ensures
        match r {
            Ok(_) => final(writer)@ == old(writer)@ + package_bytes(file_views(input_files@))
                && old(writer)@.len() + package_size(file_views(input_files@)) <= usize::MAX,
            Err(e) => e == Error::TooLarge && final(writer)@ == old(writer)@ && old(writer)@.len()
                + package_size(file_views(input_files@)) > usize::MAX,
        },
{
    let order = sorted_order(input_files);
    let (meta_len, data_len) = match measure(input_files, &order) {
        Some(sizes) => sizes,
        None => {
            return Err(Error::TooLarge);
        },
    };
    let room: u64 = (usize::MAX - writer.len()) as u64;
    if room < 8 || meta_len > room - 8 || data_len > room - 8 - meta_len {
        return Err(Error::TooLarge);
    }
    let ghost start = writer@;
    let ghost sorted = sort_by_path(file_views(input_files@));
    put_be_u64(writer, meta_len);
    write_records(input_files, &order, writer);
    write_contents(input_files, &order, writer);
    assert(writer@ == start + archive(sorted)) by {
        assert(start + be_bytes(meta_size(sorted), 8) + records_bytes(layout(sorted)) + contents(
            sorted,
        ) == start + (be_bytes(meta_size(sorted), 8) + records_bytes(layout(sorted)) + contents(
            sorted,
        )));
    }
    Ok(())
}

} // verus!
