//! What holds of the codec as a whole: decoding gives back what was
//! encoded, the container does not depend on the order of the input, and
//! the entries of a container never overlap.

use crate::fs::order::{bytes_le, insert_by_path, key, sort_by_path, FileView};
use crate::fs::package::{
    archive, contents, data_size, decode, find_entry, layout, lemma_entry_among,
    lemma_sizes_grow,
    meta_size, package_bytes, package_size, parse_record, parse_records, record_bytes,
    records_bytes, EntryView, PackageView,
};
use crate::outside::{be_bytes, be_value, signed_of, unsigned_of};
use vstd::prelude::*;
use vstd::utf8::{encode_utf8, encode_utf8_decode_utf8, encode_utf8_valid_utf8};

verus! {

/// The first number that `width` bytes cannot hold.
pub open spec fn byte_limit(width: nat) -> nat
    decreases width,
{
    if width == 0 {
        1
    } else {
        256 * byte_limit((width - 1) as nat)
    }
}

/// Eight bytes hold the numbers below 2^64.
pub proof fn lemma_byte_limit_8()
    ensures
        byte_limit(8) == 0x1_0000_0000_0000_0000,
{
    reveal_with_fuel(byte_limit, 9);
}

/// `be_bytes` gives as many bytes as it is asked for.
pub proof fn lemma_be_bytes_len(x: nat, width: nat)
    ensures
        be_bytes(x, width).len() == width,
    decreases width,
{
    if width > 0 {
        lemma_be_bytes_len(x / 256, (width - 1) as nat);
    }
}

/// A number that fits in `width` bytes is read back from its bytes.
pub proof fn lemma_be_round_trip(x: nat, width: nat)
    requires
        x < byte_limit(width),
    ensures
        be_value(be_bytes(x, width)) == x,
    decreases width,
{
    if width > 0 {
        let front = be_bytes(x / 256, (width - 1) as nat);
        lemma_be_round_trip(x / 256, (width - 1) as nat);
        assert(be_bytes(x, width).drop_last() == front);
        assert(be_bytes(x, width).last() == (x % 256) as u8);
    }
}

/// A 64-bit number is read back from its eight bytes.
pub proof fn lemma_be_u64(x: u64)
    ensures
        be_bytes(x as nat, 8).len() == 8,
        be_value(be_bytes(x as nat, 8)) == x,
{
    lemma_byte_limit_8();
    lemma_be_bytes_len(x as nat, 8);
    lemma_be_round_trip(x as nat, 8);
}

/// A signed 64-bit number is read back from its eight bytes.
pub proof fn lemma_be_i64(x: i64)
    ensures
        be_bytes(unsigned_of(x as int), 8).len() == 8,
        signed_of(be_value(be_bytes(unsigned_of(x as int), 8))) == x,
{
    lemma_byte_limit_8();
    lemma_be_bytes_len(unsigned_of(x as int), 8);
    lemma_be_round_trip(unsigned_of(x as int), 8);
}

/// A record is 32 bytes and its path.
pub proof fn lemma_record_len(entry: EntryView)
    ensures
        record_bytes(entry).len() == 32 + encode_utf8(entry.path).len(),
{
    lemma_be_bytes_len(encode_utf8(entry.path).len(), 8);
    lemma_be_bytes_len(unsigned_of(entry.last_modified as int), 8);
    lemma_be_bytes_len(entry.length as nat, 8);
    lemma_be_bytes_len(entry.start_offset as nat, 8);
}

/// A record is read back from its bytes, whatever follows them.
pub proof fn lemma_record_round_trip(entry: EntryView, rest: Seq<u8>)
    requires
        encode_utf8(entry.path).len() <= u64::MAX,
    ensures
        parse_record(record_bytes(entry) + rest) == Some(
            (entry, 32 + encode_utf8(entry.path).len() as int),
        ),
{
    let path = encode_utf8(entry.path);
    let n = path.len() as int;
    let area = record_bytes(entry) + rest;
    let f0 = be_bytes(path.len(), 8);
    let f1 = be_bytes(unsigned_of(entry.last_modified as int), 8);
    let f2 = be_bytes(entry.length as nat, 8);
    let f3 = be_bytes(entry.start_offset as nat, 8);
    lemma_be_u64(path.len() as u64);
    lemma_be_i64(entry.last_modified);
    lemma_be_u64(entry.length);
    lemma_be_u64(entry.start_offset);
    lemma_record_len(entry);
    assert(area.take(8) == f0);
    assert(area.subrange(8, 8 + n) == path);
    assert(area.subrange(8 + n, 16 + n) == f1);
    assert(area.subrange(16 + n, 24 + n) == f2);
    assert(area.subrange(24 + n, 32 + n) == f3);
    encode_utf8_valid_utf8(entry.path);
    encode_utf8_decode_utf8(entry.path);
}

/// The paths of the entries fit the eight bytes of their length field.
pub open spec fn paths_fit(entries: Seq<EntryView>) -> bool {
    forall|i: int| 0 <= i < entries.len() ==> encode_utf8((#[trigger] entries[i]).path).len() <= u64::MAX
}

/// Records are read back from their bytes, in front of any run of whole
/// records.
pub proof fn lemma_records_round_trip(entries: Seq<EntryView>, tail: Seq<u8>, rest: Seq<EntryView>)
    requires
        paths_fit(entries),
        parse_records(tail) == Some(rest),
    ensures
        parse_records(records_bytes(entries) + tail) == Some(entries + rest),
    decreases entries.len(),
{
    if entries.len() == 0 {
        assert(records_bytes(entries) + tail == tail);
        assert(entries + rest == rest);
    } else {
        let front = entries.drop_last();
        let last = entries.last();
        let area = record_bytes(last) + tail;
        let used = 32 + encode_utf8(last.path).len() as int;
        assert(entries[entries.len() - 1] == last);
        lemma_record_round_trip(last, tail);
        lemma_record_len(last);
        assert(area.skip(used) == tail);
        assert(parse_records(area) == Some(seq![last] + rest));
        assert forall|i: int| 0 <= i < front.len() implies encode_utf8(
            (#[trigger] front[i]).path,
        ).len() <= u64::MAX by {
            assert(front[i] == entries[i]);
        }
        lemma_records_round_trip(front, area, seq![last] + rest);
        assert(records_bytes(front) + area == records_bytes(entries) + tail);
        assert(front + (seq![last] + rest) == entries + rest);
    }
}

/// The lengths of the two regions of a container are the sums that the
/// header and the offsets are made of.
pub proof fn lemma_region_lens(files: Seq<FileView>)
    ensures
        records_bytes(layout(files)).len() == meta_size(files),
        contents(files).len() == data_size(files),
    decreases files.len(),
{
    if files.len() > 0 {
        let front = files.drop_last();
        lemma_region_lens(front);
        assert(layout(files).drop_last() == layout(front)) by {
            assert forall|i: int| 0 <= i < front.len() implies layout(files).drop_last()[i]
                == layout(front)[i] by {
                assert(front.take(i) == files.take(i));
            }
        }
        lemma_record_len(layout(files).last());
    }
}

/// No two files share a path.
pub open spec fn distinct_paths(files: Seq<FileView>) -> bool {
    forall|i: int, j: int|
        0 <= i < files.len() && 0 <= j < files.len() && i != j ==> (#[trigger] files[i]).path != (
        #[trigger] files[j]).path
}

/// Where the bytes of the file at position `i` start in the data region.
proof fn lemma_offsets(files: Seq<FileView>, i: int)
    requires
        0 <= i < files.len(),
    ensures
        data_size(files.take(i)) + files[i].content.len() == data_size(files.take(i + 1)),
        data_size(files.take(i + 1)) <= data_size(files),
        meta_size(files.take(i)) + 32 + key(files[i]).len() <= meta_size(files),
{
    assert(files.take(i + 1).drop_last() == files.take(i));
    assert(files.take(i + 1).last() == files[i]);
    lemma_sizes_grow(files, i + 1);
}

/// A container for files in order decodes to their records and their
/// bytes.
proof fn lemma_archive_decodes(sorted: Seq<FileView>)
    requires
        8 + meta_size(sorted) + data_size(sorted) <= usize::MAX,
    ensures
        decode(archive(sorted)) == Some(
            PackageView { records: layout(sorted), data: contents(sorted) },
        ),
{
    let header = be_bytes(meta_size(sorted), 8);
    let records = records_bytes(layout(sorted));
    let data = contents(sorted);
    let bytes = archive(sorted);
    let m = meta_size(sorted) as int;
    lemma_be_u64(meta_size(sorted) as u64);
    lemma_region_lens(sorted);
    assert(bytes.take(8) == header);
    assert(bytes.subrange(8, 8 + m) == records);
    assert(bytes.skip(8 + m) == data);
    assert forall|i: int| 0 <= i < layout(sorted).len() implies encode_utf8(
        (#[trigger] layout(sorted)[i]).path,
    ).len() <= u64::MAX && layout(sorted)[i].within(data.len()) by {
        lemma_offsets(sorted, i);
        lemma_sizes_grow(sorted, i);
    }
    lemma_records_round_trip(layout(sorted), Seq::empty(), Seq::empty());
    assert(records + Seq::<u8>::empty() == records);
    assert(layout(sorted) + Seq::<EntryView>::empty() == layout(sorted));
}

/// Among records with different paths a lookup finds each by its path.
proof fn lemma_find_each(records: Seq<EntryView>, i: int)
    requires
        0 <= i < records.len(),
        forall|a: int, b: int|
            0 <= a < records.len() && 0 <= b < records.len() && a != b ==> (
            #[trigger] records[a]).path != (#[trigger] records[b]).path,
    ensures
        find_entry(records, records[i].path) == Some(records[i]),
    decreases records.len(),
{
    if i < records.len() - 1 {
        let front = records.drop_last();
        assert(records[records.len() - 1].path != records[i].path);
        assert forall|a: int, b: int|
            0 <= a < front.len() && 0 <= b < front.len() && a != b implies (
        #[trigger] front[a]).path != (#[trigger] front[b]).path by {
            assert(front[a] == records[a] && front[b] == records[b]);
        }
        lemma_find_each(front, i);
    }
}

/// The data region holds the bytes of each file at its offset.
proof fn lemma_content_at(files: Seq<FileView>, i: int)
    requires
        0 <= i < files.len(),
    ensures
        contents(files).subrange(
            data_size(files.take(i)) as int,
            (data_size(files.take(i)) + files[i].content.len()) as int,
        ) == files[i].content,
    decreases files.len(),
{
    let front = files.drop_last();
    lemma_region_lens(front);
    if i == files.len() - 1 {
        assert(files.take(i) == front);
        assert((contents(front) + files.last().content).subrange(
            data_size(front) as int,
            (data_size(front) + files[i].content.len()) as int,
        ) == files[i].content);
    } else {
        lemma_content_at(front, i);
        lemma_offsets(front, i);
        assert(front.take(i) == files.take(i));
        assert((contents(front) + files.last().content).subrange(
            data_size(files.take(i)) as int,
            (data_size(files.take(i)) + files[i].content.len()) as int,
        ) == contents(front).subrange(
            data_size(files.take(i)) as int,
            (data_size(files.take(i)) + files[i].content.len()) as int,
        ));
    }
}

/// Of two byte strings one comes before the other, or they are equal.
pub proof fn lemma_bytes_le_total(a: Seq<u8>, b: Seq<u8>)
    ensures
        bytes_le(a, b) || bytes_le(b, a),
    decreases a.len(),
{
    if a.len() > 0 && b.len() > 0 && a[0] == b[0] {
        lemma_bytes_le_total(a.skip(1), b.skip(1));
    }
}

/// Each byte string comes before itself.
pub proof fn lemma_bytes_le_reflexive(a: Seq<u8>)
    ensures
        bytes_le(a, a),
    decreases a.len(),
{
    if a.len() > 0 {
        lemma_bytes_le_reflexive(a.skip(1));
    }
}

/// The byte-wise order is transitive.
pub proof fn lemma_bytes_le_transitive(a: Seq<u8>, b: Seq<u8>, c: Seq<u8>)
    requires
        bytes_le(a, b),
        bytes_le(b, c),
    ensures
        bytes_le(a, c),
    decreases a.len(),
{
    if a.len() > 0 && b.len() > 0 && c.len() > 0 && a[0] == b[0] && b[0] == c[0] {
        lemma_bytes_le_transitive(a.skip(1), b.skip(1), c.skip(1));
    }
}

/// Two byte strings that come before each other are one string.
pub proof fn lemma_bytes_le_antisymmetric(a: Seq<u8>, b: Seq<u8>)
    requires
        bytes_le(a, b),
        bytes_le(b, a),
    ensures
        a == b,
    decreases a.len(),
{
    if a.len() > 0 && b.len() > 0 {
        lemma_bytes_le_antisymmetric(a.skip(1), b.skip(1));
        assert(a == seq![a[0]] + a.skip(1));
        assert(b == seq![b[0]] + b.skip(1));
    } else {
        assert(a == b);
    }
}

/// Files with one key have one path.
pub proof fn lemma_key_tells_path(x: FileView, y: FileView)
    requires
        key(x) == key(y),
    ensures
        x.path == y.path,
{
    encode_utf8_decode_utf8(x.path);
    encode_utf8_decode_utf8(y.path);
}

/// Each file comes before the files behind it.
pub open spec fn ordered(files: Seq<FileView>) -> bool {
    forall|i: int, j: int|
        0 <= i < j < files.len() ==> bytes_le(key(#[trigger] files[i]), key(#[trigger] files[j]))
}

/// `a` and `b` hold the same files.
pub open spec fn same_files(a: Seq<FileView>, b: Seq<FileView>) -> bool {
    forall|f: FileView| a.contains(f) <==> b.contains(f)
}

/// The position at which `insert_by_path` puts `file`.
pub open spec fn insert_position(sorted: Seq<FileView>, file: FileView) -> int
    decreases sorted.len(),
{
    if sorted.len() == 0 {
        0
    } else if bytes_le(key(sorted.last()), key(file)) {
        sorted.len() as int
    } else {
        insert_position(sorted.drop_last(), file)
    }
}

/// `insert_by_path` splices the file in at `insert_position`: behind a file
/// that does not come after it, in front of files that do.
proof fn lemma_insert_shape(sorted: Seq<FileView>, file: FileView)
    ensures
        0 <= insert_position(sorted, file) <= sorted.len(),
        insert_by_path(sorted, file) == sorted.take(insert_position(sorted, file)).push(file)
            + sorted.skip(insert_position(sorted, file)),
        forall|k: int|
            insert_position(sorted, file) <= k < sorted.len() ==> !bytes_le(
                key(#[trigger] sorted[k]),
                key(file),
            ),
        insert_position(sorted, file) > 0 ==> bytes_le(
            key(sorted[insert_position(sorted, file) - 1]),
            key(file),
        ),
    decreases sorted.len(),
{
    let at = insert_position(sorted, file);
    if sorted.len() == 0 {
        assert(sorted.take(0).push(file) + sorted.skip(0) == seq![file]);
    } else if bytes_le(key(sorted.last()), key(file)) {
        assert(sorted.take(at) == sorted);
        assert(sorted.push(file) + sorted.skip(at) == sorted.push(file));
    } else {
        let front = sorted.drop_last();
        lemma_insert_shape(front, file);
        assert(front.take(at) == sorted.take(at));
        assert((front.take(at).push(file) + front.skip(at)).push(sorted.last()) == sorted.take(
            at,
        ).push(file) + sorted.skip(at));
        assert forall|k: int| at <= k < sorted.len() implies !bytes_le(
            key(#[trigger] sorted[k]),
            key(file),
        ) by {
            if k < front.len() {
                assert(front[k] == sorted[k]);
            }
        }
        if at > 0 {
            assert(front[at - 1] == sorted[at - 1]);
        }
    }
}

/// What sorting keeps: the number of files, the files themselves, that no
/// two share a path; and what it brings: the order.
pub proof fn lemma_sort_by_path(files: Seq<FileView>)
    ensures
        sort_by_path(files).len() == files.len(),
        same_files(sort_by_path(files), files),
        distinct_paths(files) ==> distinct_paths(sort_by_path(files)),
        ordered(sort_by_path(files)),
    decreases files.len(),
{
    if files.len() > 0 {
        let front = files.drop_last();
        let last = files.last();
        let s = sort_by_path(front);
        let at = insert_position(s, last);
        let r = sort_by_path(files);
        lemma_sort_by_path(front);
        lemma_insert_shape(s, last);
        assert(r == s.take(at).push(last) + s.skip(at));
        assert(r.len() == s.len() + 1);
        assert(r[at] == last);
        assert forall|k: int| 0 <= k < at implies #[trigger] r[k] == s[k] by {}
        assert forall|k: int| at < k < r.len() implies #[trigger] r[k] == s[k - 1] by {}
        assert forall|f: FileView| r.contains(f) <==> files.contains(f) by {
            if r.contains(f) {
                let k = choose|k: int| 0 <= k < r.len() && r[k] == f;
                if k == at {
                    assert(files[files.len() - 1] == f);
                } else {
                    let j = if k < at {
                        k
                    } else {
                        k - 1
                    };
                    assert(s[j] == f);
                    assert(s.contains(f));
                    assert(front.contains(f));
                    let i = choose|i: int| 0 <= i < front.len() && front[i] == f;
                    assert(files[i] == f);
                }
            }
            if files.contains(f) {
                let i = choose|i: int| 0 <= i < files.len() && files[i] == f;
                if i == files.len() - 1 {
                    assert(r[at] == f);
                } else {
                    assert(front[i] == f);
                    assert(front.contains(f));
                    assert(s.contains(f));
                    let j = choose|j: int| 0 <= j < s.len() && s[j] == f;
                    if j < at {
                        assert(r[j] == f);
                    } else {
                        assert(r[j + 1] == f);
                    }
                }
            }
        }
        if distinct_paths(files) {
            assert forall|a: int, b: int| 0 <= a < front.len() && 0 <= b < front.len() && a
                != b implies (#[trigger] front[a]).path != (#[trigger] front[b]).path by {
                assert(front[a] == files[a] && front[b] == files[b]);
            }
            assert forall|j: int| 0 <= j < s.len() implies (#[trigger] s[j]).path
                != last.path by {
                assert(s.contains(s[j]));
                assert(front.contains(s[j]));
                let i = choose|i: int| 0 <= i < front.len() && front[i] == s[j];
                assert(files[i] == s[j]);
                assert(files[files.len() - 1] == last);
            }
            assert forall|a: int, b: int| 0 <= a < r.len() && 0 <= b < r.len() && a
                != b implies (#[trigger] r[a]).path != (#[trigger] r[b]).path by {
                let ja = if a < at {
                    a
                } else {
                    a - 1
                };
                let jb = if b < at {
                    b
                } else {
                    b - 1
                };
                if a == at {
                    assert(r[b] == s[jb]);
                } else if b == at {
                    assert(r[a] == s[ja]);
                } else {
                    assert(r[a] == s[ja] && r[b] == s[jb]);
                }
            }
        }
        assert forall|i: int, j: int| 0 <= i < j < r.len() implies bytes_le(
            key(#[trigger] r[i]),
            key(#[trigger] r[j]),
        ) by {
            if j < at {
                assert(r[i] == s[i] && r[j] == s[j]);
            } else if j == at {
                assert(r[i] == s[i]);
                if i < at - 1 {
                    lemma_bytes_le_transitive(key(s[i]), key(s[at - 1]), key(last));
                }
            } else if i == at {
                assert(r[j] == s[j - 1]);
                lemma_bytes_le_total(key(s[j - 1]), key(last));
            } else if i > at {
                assert(r[i] == s[i - 1] && r[j] == s[j - 1]);
            } else {
                assert(r[i] == s[i] && r[j] == s[j - 1]);
            }
        }
    }
}

/// Files with one path are one file: the path tells the modification time
/// and the bytes, as it does where the files are read from one directory.
pub open spec fn path_names_file(files: Seq<FileView>) -> bool {
    forall|i: int, j: int|
        0 <= i < files.len() && 0 <= j < files.len() && (#[trigger] files[i]).path == (
        #[trigger] files[j]).path ==> files[i] == files[j]
}

/// Sorting keeps each file as often as it was given.
pub proof fn lemma_sort_keeps_all(files: Seq<FileView>)
    ensures
        sort_by_path(files).to_multiset() == files.to_multiset(),
    decreases files.len(),
{
    if files.len() > 0 {
        let front = files.drop_last();
        let last = files.last();
        let s = sort_by_path(front);
        let at = insert_position(s, last);
        lemma_sort_keeps_all(front);
        lemma_insert_shape(s, last);
        assert(s.take(at).push(last) + s.skip(at) == s.insert(at, last));
        vstd::seq_lib::to_multiset_insert(s, at, last);
        vstd::seq_lib::to_multiset_build(front, last);
        assert(files == front.push(last));
        assert(sort_by_path(files) == s.insert(at, last));
    } else {
        assert(files == Seq::<FileView>::empty());
    }
}

/// Files in order, where the path names the file, are in the only order
/// that holds each of them as often.
pub proof fn lemma_order_of_all_is_unique(a: Seq<FileView>, b: Seq<FileView>)
    requires
        ordered(a),
        ordered(b),
        path_names_file(a),
        a.to_multiset() == b.to_multiset(),
    ensures
        a == b,
    decreases a.len(),
{
    vstd::seq_lib::to_multiset_len(a);
    vstd::seq_lib::to_multiset_len(b);
    if a.len() == 0 {
        assert(a == b);
    } else {
        let x = a.last();
        let y = b.last();
        assert(a[a.len() - 1] == x);
        assert(b[b.len() - 1] == y);
        assert(a.contains(x));
        assert(b.contains(y));
        vstd::seq_lib::to_multiset_contains(a, x);
        vstd::seq_lib::to_multiset_contains(b, x);
        vstd::seq_lib::to_multiset_contains(a, y);
        vstd::seq_lib::to_multiset_contains(b, y);
        assert(b.contains(x));
        assert(a.contains(y));
        let jx = choose|j: int| 0 <= j < b.len() && b[j] == x;
        let iy = choose|i: int| 0 <= i < a.len() && a[i] == y;
        lemma_bytes_le_reflexive(key(x));
        lemma_bytes_le_reflexive(key(y));
        assert(bytes_le(key(x), key(y))) by {
            if jx < b.len() - 1 {
                assert(bytes_le(key(b[jx]), key(b[b.len() - 1])));
            }
        }
        assert(bytes_le(key(y), key(x))) by {
            if iy < a.len() - 1 {
                assert(bytes_le(key(a[iy]), key(a[a.len() - 1])));
            }
        }
        lemma_bytes_le_antisymmetric(key(x), key(y));
        lemma_key_tells_path(x, y);
        assert(a[iy].path == a[a.len() - 1].path);
        assert(x == y);
        let fa = a.drop_last();
        let fb = b.drop_last();
        assert(fa == a.remove(a.len() - 1));
        assert(fb == b.remove(b.len() - 1));
        vstd::seq_lib::to_multiset_remove(a, a.len() - 1);
        vstd::seq_lib::to_multiset_remove(b, b.len() - 1);
        assert forall|i: int, j: int| 0 <= i < j < fa.len() implies bytes_le(
            key(#[trigger] fa[i]),
            key(#[trigger] fa[j]),
        ) by {
            assert(fa[i] == a[i] && fa[j] == a[j]);
        }
        assert forall|i: int, j: int| 0 <= i < j < fb.len() implies bytes_le(
            key(#[trigger] fb[i]),
            key(#[trigger] fb[j]),
        ) by {
            assert(fb[i] == b[i] && fb[j] == b[j]);
        }
        assert forall|i: int, j: int|
            0 <= i < fa.len() && 0 <= j < fa.len() && (#[trigger] fa[i]).path == (
            #[trigger] fa[j]).path implies fa[i] == fa[j] by {
            assert(fa[i] == a[i] && fa[j] == a[j]);
        }
        lemma_order_of_all_is_unique(fa, fb);
        assert(a == fa.push(x));
        assert(b == fb.push(y));
    }
}

/// Round trip. A set of files, no two with one path, whose container fits
/// in memory, is what decoding its container gives back: the index has an
/// entry for each file, with its modification time and its length, the
/// bytes extracted for its path are its bytes, and the index has no path
/// but those of the files.
pub proof fn law_round_trip(files: Seq<FileView>)
    requires
        distinct_paths(files),
        package_size(files) <= usize::MAX,
    ensures
        decode(package_bytes(files)) is Some,
        decode(package_bytes(files)).unwrap().well_formed(),
        forall|i: int|
            0 <= i < files.len() ==> {
                let package = decode(package_bytes(files)).unwrap();
                let file = #[trigger] files[i];
                &&& package.entry(file.path) matches Some(entry) && entry.path == file.path
                    && entry.last_modified == file.last_modified && entry.length
                    == file.content.len()
                &&& package.content(file.path) == Some(file.content)
            },
        forall|path: Seq<char>|
            (#[trigger] decode(package_bytes(files)).unwrap().entry(path)) is Some ==> exists|
                i: int,
            |
                0 <= i < files.len() && files[i].path == path,
{
    let sorted = sort_by_path(files);
    let records = layout(sorted);
    lemma_sort_by_path(files);
    lemma_archive_decodes(sorted);
    let package = decode(package_bytes(files)).unwrap();
    assert(package.records == records && package.data == contents(sorted));
    assert forall|a: int, b: int|
        0 <= a < records.len() && 0 <= b < records.len() && a != b implies (
    #[trigger] records[a]).path != (#[trigger] records[b]).path by {
        assert(sorted[a].path != sorted[b].path);
    }
    assert forall|i: int| 0 <= i < files.len() implies {
        let file = #[trigger] files[i];
        &&& package.entry(file.path) matches Some(entry) && entry.path == file.path
            && entry.last_modified == file.last_modified && entry.length == file.content.len()
        &&& package.content(file.path) == Some(file.content)
    } by {
        let file = files[i];
        assert(files.contains(file));
        assert(sorted.contains(file));
        let k = choose|k: int| 0 <= k < sorted.len() && sorted[k] == file;
        lemma_find_each(records, k);
        lemma_content_at(sorted, k);
        lemma_offsets(sorted, k);
        lemma_sizes_grow(sorted, k);
        assert(records[k].path == file.path);
    }
    assert forall|path: Seq<char>| (#[trigger] package.entry(path)) is Some implies exists|i: int|
        0 <= i < files.len() && files[i].path == path by {
        lemma_entry_among(records, path);
        let entry = package.entry(path).unwrap();
        let k = choose|k: int| 0 <= k < records.len() && records[k] == entry && entry.path == path;
        assert(sorted.contains(sorted[k]));
        assert(files.contains(sorted[k]));
        let i = choose|i: int| 0 <= i < files.len() && files[i] == sorted[k];
        assert(files[i].path == path);
    }
}

/// Determinism. Two lists of the same files, no two with one path, give
/// the same container byte for byte, whatever the order of each list.
pub proof fn law_order_independent(a: Seq<FileView>, b: Seq<FileView>)
    requires
        distinct_paths(a),
        distinct_paths(b),
        same_files(a, b),
    ensures
        package_bytes(a) == package_bytes(b),
{
    assert(a.no_duplicates()) by {
        assert forall|i: int, j: int| 0 <= i < a.len() && 0 <= j < a.len() && i != j implies a[i]
            != a[j] by {
            assert(a[i].path != a[j].path);
        }
    }
    assert(b.no_duplicates()) by {
        assert forall|i: int, j: int| 0 <= i < b.len() && 0 <= j < b.len() && i != j implies b[i]
            != b[j] by {
            assert(b[i].path != b[j].path);
        }
    }
    a.lemma_multiset_has_no_duplicates();
    b.lemma_multiset_has_no_duplicates();
    assert forall|x: FileView| a.to_multiset().count(x) == b.to_multiset().count(x) by {
        vstd::seq_lib::to_multiset_contains(a, x);
        vstd::seq_lib::to_multiset_contains(b, x);
    }
    assert(a.to_multiset() =~= b.to_multiset());
    law_reordering_changes_nothing(a, b);
}

/// Determinism. A list of files and any reordering of it give the same
/// container byte for byte, where the path names the file. The list may
/// hold a file more than once.
pub proof fn law_reordering_changes_nothing(a: Seq<FileView>, b: Seq<FileView>)
    requires
        a.to_multiset() == b.to_multiset(),
        path_names_file(a),
    ensures
        package_bytes(a) == package_bytes(b),
{
    let sa = sort_by_path(a);
    lemma_sort_by_path(a);
    lemma_sort_by_path(b);
    lemma_sort_keeps_all(a);
    lemma_sort_keeps_all(b);
    assert forall|i: int, j: int|
        0 <= i < sa.len() && 0 <= j < sa.len() && (#[trigger] sa[i]).path == (
        #[trigger] sa[j]).path implies sa[i] == sa[j] by {
        assert(sa.contains(sa[i]) && sa.contains(sa[j]));
        assert(a.contains(sa[i]) && a.contains(sa[j]));
        let k = choose|k: int| 0 <= k < a.len() && a[k] == sa[i];
        let l = choose|l: int| 0 <= l < a.len() && a[l] == sa[j];
        assert(a[k].path == a[l].path);
    }
    lemma_order_of_all_is_unique(sa, sort_by_path(b));
}

/// Offsets. Every entry of a decoded container ends inside the data
/// region.
pub proof fn law_entries_within(bytes: Seq<u8>)
    requires
        decode(bytes) is Some,
    ensures
        forall|i: int|
            0 <= i < decode(bytes).unwrap().records.len() ==> (
            #[trigger] decode(bytes).unwrap().records[i]).within(
                decode(bytes).unwrap().data.len(),
            ),
{
}

/// Offsets. In the container of any files the bytes of two entries have no
/// position in common.
pub proof fn law_entries_disjoint(files: Seq<FileView>)
    requires
        package_size(files) <= usize::MAX,
    ensures
        decode(package_bytes(files)) is Some,
        forall|i: int, j: int|
            0 <= i < decode(package_bytes(files)).unwrap().records.len() && 0 <= j < decode(
                package_bytes(files),
            ).unwrap().records.len() && i != j ==> (#[trigger] decode(
                package_bytes(files),
            ).unwrap().records[i]).disjoint(
                #[trigger] decode(package_bytes(files)).unwrap().records[j],
            ),
{
    let sorted = sort_by_path(files);
    let records = layout(sorted);
    lemma_archive_decodes(sorted);
    assert(decode(package_bytes(files)).unwrap().records == records);
    assert forall|i: int, j: int|
        0 <= i < records.len() && 0 <= j < records.len() && i != j implies (
    #[trigger] records[i]).disjoint(#[trigger] records[j]) by {
        let lo = if i < j {
            i
        } else {
            j
        };
        let hi = if i < j {
            j
        } else {
            i
        };
        lemma_offsets(sorted, lo);
        lemma_offsets(sorted, hi);
        lemma_sizes_grow(sorted, hi);
        lemma_sizes_grow(sorted.take(hi), lo + 1);
        assert(sorted.take(hi).take(lo + 1) == sorted.take(lo + 1));
    }
}

} // verus!
