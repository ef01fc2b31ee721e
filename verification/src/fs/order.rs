//! The order in which a package holds its files: by path, byte by byte.

use vstd::prelude::*;
use vstd::utf8::encode_utf8;

verus! {

/// A file to be packed, as plain values.
pub struct FileView {
    pub path: Seq<char>,
    pub last_modified: i64,
    pub content: Seq<u8>,
}

/// A file to be packed: its path relative to the root, its modification
/// time in seconds after the Unix epoch, and its bytes.
#[derive(Debug)]
pub struct PackageFile {
    pub path: String,
    pub last_modified: i64,
    pub content: Vec<u8>,
}

impl View for PackageFile {
    type V = FileView;

    open spec fn view(&self) -> FileView {
        FileView { path: self.path@, last_modified: self.last_modified, content: self.content@ }
    }
}

/// The views of a run of files.
pub open spec fn file_views(files: Seq<PackageFile>) -> Seq<FileView> {
    files.map_values(|file: PackageFile| file@)
}

/// The bytes by which a file is ordered: its path in UTF-8.
pub open spec fn key(file: FileView) -> Seq<u8> {
    encode_utf8(file.path)
}

/// `a` comes before `b`, or is `b`, in byte-wise lexicographic order.
pub open spec fn bytes_le(a: Seq<u8>, b: Seq<u8>) -> bool
    decreases a.len(),
{
    if a.len() == 0 {
        true
    } else if b.len() == 0 {
        false
    } else if a[0] != b[0] {
        a[0] < b[0]
    } else {
        bytes_le(a.skip(1), b.skip(1))
    }
}

/// `sorted` with `file` put behind the last file that does not come after
/// it.
pub open spec fn insert_by_path(sorted: Seq<FileView>, file: FileView) -> Seq<FileView>
    decreases sorted.len(),
{
    if sorted.len() == 0 {
        seq![file]
    } else if bytes_le(key(sorted.last()), key(file)) {
        sorted.push(file)
    } else {
        insert_by_path(sorted.drop_last(), file).push(sorted.last())
    }
}

/// The files in the order of their paths. Files with one path keep the
/// order in which they were given.
pub open spec fn sort_by_path(files: Seq<FileView>) -> Seq<FileView>
    decreases files.len(),
{
    if files.len() == 0 {
        Seq::empty()
    } else {
        insert_by_path(sort_by_path(files.drop_last()), files.last())
    }
}

/// The files that `order` picks out of `files`, in that order.
pub open spec fn picked(files: Seq<FileView>, order: Seq<usize>) -> Seq<FileView> {
    Seq::new(order.len(), |k: int| files[order[k] as int])
}

/// Tells whether `a` comes before `b`, or is `b`, in byte-wise
/// lexicographic order.
pub fn le_bytes(a: &[u8], b: &[u8]) -> (r: bool)
    ensures
        r == bytes_le(a@, b@),
{
    let mut i: usize = 0;
    assert(a@.skip(0) == a@ && b@.skip(0) == b@);
    while i < a.len() && i < b.len() && a[i] == b[i]
        invariant
            i <= a@.len(),
            i <= b@.len(),
            bytes_le(a@, b@) == bytes_le(a@.skip(i as int), b@.skip(i as int)),
        decreases a@.len() - i,
    {
        assert(a@.skip(i as int).skip(1) == a@.skip(i + 1));
        assert(b@.skip(i as int).skip(1) == b@.skip(i + 1));
        i = i + 1;
    }
    if i == a.len() {
        true
    } else if i == b.len() {
        false
    } else {
        a[i] < b[i]
    }
}

/// Where `insert_by_path` puts a file: in front of the files that come
/// after it.
proof fn lemma_insert_position(sorted: Seq<FileView>, file: FileView, at: int)
    requires
        0 <= at <= sorted.len(),
        forall|k: int| at <= k < sorted.len() ==> !bytes_le(key(#[trigger] sorted[k]), key(file)),
        at > 0 ==> bytes_le(key(sorted[at - 1]), key(file)),
    ensures
        insert_by_path(sorted, file) == sorted.take(at).push(file) + sorted.skip(at),
    decreases sorted.len(),
{
    if sorted.len() == 0 {
        assert(sorted.take(at).push(file) + sorted.skip(at) == seq![file]);
    } else if at == sorted.len() {
        assert(sorted.take(at) == sorted);
        assert(sorted.push(file) + sorted.skip(at) == sorted.push(file));
    } else {
        assert(!bytes_le(key(sorted[sorted.len() - 1]), key(file)));
        let front = sorted.drop_last();
        lemma_insert_position(front, file, at);
        assert(front.take(at) == sorted.take(at));
        assert((front.take(at).push(file) + front.skip(at)).push(sorted.last()) == sorted.take(
            at,
        ).push(file) + sorted.skip(at));
    }
}

/// Sorts the files by path: the result lists the positions of the files in
/// the order of `sort_by_path`.
pub fn sorted_order(files: &Vec<PackageFile>) -> (order: Vec<usize>)
    ensures
        order@.len() == files@.len(),
        forall|k: int| 0 <= k < order@.len() ==> (#[trigger] order@[k]) < files@.len(),
        picked(file_views(files@), order@) == sort_by_path(file_views(files@)),
{
    let ghost views = file_views(files@);
    let mut order: Vec<usize> = Vec::new();
    let mut i: usize = 0;
    assert(picked(views.take(0), order@) == sort_by_path(views.take(0)));
    while i < files.len()
        invariant
            i <= files@.len(),
            views == file_views(files@),
            order@.len() == i,
            forall|k: int| 0 <= k < order@.len() ==> (#[trigger] order@[k]) < i,
            picked(views, order@) == sort_by_path(views.take(i as int)),
        decreases files@.len() - i,
    {
        let ghost sorted = picked(views, order@);
        let ghost before = order@;
        let wanted = files[i].path.as_str().as_bytes();
        let mut at: usize = order.len();
        while at > 0 && !le_bytes(files[order[at - 1]].path.as_str().as_bytes(), wanted)
            invariant
                at <= order@.len() == i < files@.len(),
                views == file_views(files@),
                sorted == picked(views, order@),
                wanted@ == key(views[i as int]),
                forall|k: int| 0 <= k < order@.len() ==> (#[trigger] order@[k]) < i,
                forall|k: int|
                    at <= k < sorted.len() ==> !bytes_le(
                        key(#[trigger] sorted[k]),
                        key(views[i as int]),
                    ),
            decreases at,
        {
            assert(sorted[at - 1] == views[order@[at - 1] as int]);
            at = at - 1;
        }
        proof {
            if at > 0 {
                assert(sorted[at - 1] == views[order@[at - 1] as int]);
            }
            lemma_insert_position(sorted, views[i as int], at as int);
            assert(views.take(i + 1).drop_last() == views.take(i as int));
            assert(views.take(i + 1).last() == views[i as int]);
        }
        order.insert(at, i);
        assert(picked(views, order@) == sorted.take(at as int).push(views[i as int]) + sorted.skip(
            at as int,
        )) by {
            let lhs = picked(views, order@);
            let rhs = sorted.take(at as int).push(views[i as int]) + sorted.skip(at as int);
            assert(lhs.len() == rhs.len());
            assert forall|k: int| 0 <= k < lhs.len() implies lhs[k] == rhs[k] by {
                if k < at {
                    assert(order@[k] == before[k]);
                } else if k == at {
                } else {
                    assert(order@[k] == before[k - 1]);
                }
            }
        }
        i = i + 1;
    }
    assert(views.take(i as int) == views);
    order
}

} // verus!
