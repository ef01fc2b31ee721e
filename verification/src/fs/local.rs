//! The backend over a local directory: which request paths stay inside it.

use crate::error::Error;
use crate::fs::{
    answer, answer_bytes, may_say_file, may_say_modified, may_say_opened, may_say_size,
    may_say_valid, FileSystem,
};
use crate::text::{chars_of, find_char, first_index, lemma_first_index};
use vstd::prelude::*;
use vstd::string::StringExecFns;

verus! {

/// The `/`-separated segments of `s`, empty ones included.
pub open spec fn segments(s: Seq<char>) -> Seq<Seq<char>>
    decreases s.len(),
{
    let cut = first_index(s, '/', 0);
    if 0 <= cut < s.len() {
        seq![s.take(cut)] + segments(s.skip(cut + 1))
    } else {
        seq![s]
    }
}

/// A path with its `.` and `..` segments resolved: whether it starts at the
/// file system root, how many levels it climbs above where it starts, and
/// the names it then descends through.
pub struct Resolved {
    pub absolute: bool,
    pub ups: nat,
    pub names: Seq<Seq<char>>,
}

/// The segment is `..`.
pub open spec fn is_parent(segment: Seq<char>) -> bool {
    segment == seq!['.', '.']
}

/// The segment names the directory it stands in: it is empty or `.`.
pub open spec fn is_here(segment: Seq<char>) -> bool {
    segment.len() == 0 || segment == seq!['.']
}

/// One segment further: `..` leaves the last name, or climbs where there is
/// none (the file system root is its own parent); an empty segment and `.`
/// change nothing; any other segment is a name to descend to.
pub open spec fn step(at: Resolved, segment: Seq<char>) -> Resolved {
    if is_here(segment) {
        at
    } else if is_parent(segment) {
        if at.names.len() > 0 {
            Resolved { names: at.names.drop_last(), ..at }
        } else if at.absolute {
            at
        } else {
            Resolved { ups: at.ups + 1, ..at }
        }
    } else {
        Resolved { names: at.names.push(segment), ..at }
    }
}

/// Where one gets from `at` by following `segments` in order.
pub open spec fn walk(at: Resolved, segments: Seq<Seq<char>>) -> Resolved
    decreases segments.len(),
{
    if segments.len() == 0 {
        at
    } else {
        walk(step(at, segments[0]), segments.skip(1))
    }
}

/// The path begins with `/`.
pub open spec fn is_absolute(path: Seq<char>) -> bool {
    path.len() > 0 && path[0] == '/'
}

/// The path `s` resolved on its own.
pub open spec fn resolve(s: Seq<char>) -> Resolved {
    walk(Resolved { absolute: is_absolute(s), ups: 0, names: Seq::empty() }, segments(s))
}

/// The path `path` resolved from the directory `root`: an absolute path
/// stands for itself, any other is followed from `root`.
pub open spec fn resolve_from(root: Seq<char>, path: Seq<char>) -> Resolved {
    if is_absolute(path) {
        resolve(path)
    } else {
        walk(resolve(root), segments(path))
    }
}

/// `path`, resolved from `root`, names `root` or something below it.
pub open spec fn stays_within(root: Seq<char>, path: Seq<char>) -> bool {
    let base = resolve(root);
    let target = resolve_from(root, path);
    &&& target.absolute == base.absolute
    &&& target.ups == base.ups
    &&& base.names.len() <= target.names.len()
    &&& target.names.take(base.names.len() as int) == base.names
}

/// The text of `path` joined onto the directory `root`: an absolute path
/// stands for itself; any other follows `root` and one `/`.
pub open spec fn joined(root: Seq<char>, path: Seq<char>) -> Seq<char> {
    if is_absolute(path) {
        path
    } else if root.len() == 0 || root.last() == '/' {
        root + path
    } else {
        root + seq!['/'] + path
    }
}

/// The names of a resolved path as they are held at run time.
pub open spec fn names_view(names: Seq<Vec<char>>) -> Seq<Seq<char>> {
    names.map_values(|name: Vec<char>| name@)
}

/// A resolved path as it is held at run time.
struct Walker {
    absolute: bool,
    ups: u128,
    names: Vec<Vec<char>>,
}

impl View for Walker {
    type V = Resolved;

    closed spec fn view(&self) -> Resolved {
        Resolved { absolute: self.absolute, ups: self.ups as nat, names: names_view(self.names@) }
    }
}

/// A copy of `chars[from..to]`.
fn copy_range(chars: &Vec<char>, from: usize, to: usize) -> (r: Vec<char>)
    requires
        from <= to <= chars@.len(),
    ensures
        r@ == chars@.subrange(from as int, to as int),
{
    let mut r: Vec<char> = Vec::new();
    let mut i: usize = from;
    while i < to
        invariant
            from <= i <= to <= chars@.len(),
            r@ == chars@.subrange(from as int, i as int),
        decreases to - i,
    {
        r.push(chars[i]);
        assert(chars@.subrange(from as int, i + 1) == chars@.subrange(from as int, i as int).push(
            chars@[i as int],
        ));
        i = i + 1;
    }
    r
}

/// Tells whether two names are the same.
fn same_name(a: &Vec<char>, b: &Vec<char>) -> (r: bool)
    ensures
        r == (a@ == b@),
{
    if a.len() != b.len() {
        return false;
    }
    let mut i: usize = 0;
    while i < a.len()
        invariant
            i <= a@.len() == b@.len(),
            a@.take(i as int) == b@.take(i as int),
        decreases a@.len() - i,
    {
        if a[i] != b[i] {
            return false;
        }
        assert(a@.take(i + 1) == a@.take(i as int).push(a@[i as int]));
        assert(b@.take(i + 1) == b@.take(i as int).push(b@[i as int]));
        i = i + 1;
    }
    assert(a@.take(a@.len() as int) == a@ && b@.take(b@.len() as int) == b@);
    true
}

/// Takes one segment of a path.
fn advance(at: Walker, segment: Vec<char>) -> (next: Walker)
    requires
        at@.ups < u128::MAX,
    ensures
        next@ == step(at@, segment@),
        next@.ups <= at@.ups + 1,
        next@.ups > at@.ups ==> segment@.len() == 2,
{
    let mut at = at;
    if segment.len() == 0 || (segment.len() == 1 && segment[0] == '.') {
        assert(segment@.len() == 1 && segment@[0] == '.' ==> segment@ == seq!['.']);
        return at;
    }
    assert(!is_here(segment@)) by {
        if segment@ == seq!['.'] {
            assert(segment@[0] == '.');
        }
    }
    if segment.len() == 2 && segment[0] == '.' && segment[1] == '.' {
        assert(segment@ == seq!['.', '.']);
        if at.names.len() > 0 {
            let ghost before = at.names@;
            at.names.pop();
            assert(names_view(at.names@) == names_view(before).drop_last());
            return at;
        }
        if at.absolute {
            return at;
        }
        at.ups = at.ups + 1;
        return at;
    }
    assert(!is_parent(segment@)) by {
        if segment@ == seq!['.', '.'] {
            assert(segment@[0] == '.' && segment@[1] == '.');
        }
    }
    let ghost before = at.names@;
    at.names.push(segment);
    assert(names_view(at.names@) == names_view(before).push(segment@));
    at
}

/// The first `c` of what is left of `s` behind position `from` is the
/// first `c` of `s` at or after `from`.
proof fn lemma_first_index_shift(s: Seq<char>, c: char, from: int, k: int)
    requires
        0 <= from,
        0 <= k,
        from + k <= s.len(),
    ensures
        first_index(s.skip(from), c, k) + from == first_index(s, c, from + k),
    decreases s.len() - from - k,
{
    if from + k < s.len() && s[from + k] != c {
        lemma_first_index_shift(s, c, from, k + 1);
    }
}

/// Follows the segments of `chars` from `at`.
fn follow(at: Walker, chars: &Vec<char>) -> (end: Walker)
    requires
        at@.ups + chars@.len() < u128::MAX,
    ensures
        end@ == walk(at@, segments(chars@)),
        end@.ups <= at@.ups + chars@.len(),
{
    let ghost goal = walk(at@, segments(chars@));
    let ghost bound = at@.ups + chars@.len();
    let mut cur = at;
    let mut pos: usize = 0;
    assert(chars@.skip(0) == chars@);
    loop
        invariant
            pos <= chars@.len(),
            bound < u128::MAX,
            bound == at@.ups + chars@.len(),
            cur@.ups + (chars@.len() - pos) <= bound,
            goal == walk(at@, segments(chars@)),
            goal == walk(cur@, segments(chars@.skip(pos as int))),
        decreases chars@.len() - pos,
    {
        let ghost rest = chars@.skip(pos as int);
        let cut = find_char(chars, '/', pos);
        let segment = copy_range(chars, pos, cut);
        let ghost before = cur@;
        proof {
            lemma_first_index_shift(chars@, '/', pos as int, 0);
            lemma_first_index(chars@, '/', pos as int);
            assert(segment@ == rest.take(cut - pos));
        }
        cur = advance(cur, segment);
        if cut == chars.len() {
            proof {
                assert(rest.take(cut - pos) == rest);
                assert(segments(rest) == seq![rest]);
                assert(seq![rest].skip(1) == Seq::<Seq<char>>::empty());
                assert(walk(cur@, seq![rest].skip(1)) == cur@);
                assert(walk(before, seq![rest]) == walk(step(before, rest), seq![rest].skip(1)));
            }
            return cur;
        }
        proof {
            let head = rest.take(cut - pos);
            let tail = segments(rest.skip(cut - pos + 1));
            assert(rest.skip(cut - pos + 1) == chars@.skip(cut + 1));
            assert(segments(rest) == seq![head] + tail);
            assert((seq![head] + tail).skip(1) == tail);
            assert(walk(before, seq![head] + tail) == walk(step(before, head), tail));
        }
        pos = cut + 1;
    }
}

/// Resolves the path `chars` on its own.
fn resolve_chars(chars: &Vec<char>) -> (end: Walker)
    ensures
        end@ == resolve(chars@),
        end@.ups <= chars@.len(),
{
    let start = Walker {
        absolute: chars.len() > 0 && chars[0] == '/',
        ups: 0,
        names: Vec::new(),
    };
    assert(names_view(start.names@) == Seq::<Seq<char>>::empty());
    follow(start, chars)
}

/// Implements the FileSystem trait to handle a local directory.
///
/// What this type holds is the root directory, and what it decides is
/// which request paths stay inside it. Reading the directory is left to
/// the program that owns it.
pub struct LocalFileSystem {
    path: String,
}

impl LocalFileSystem {
    /// The root directory.
    pub closed spec fn root(&self) -> Seq<char> {
        self.path@
    }

    /// A backend over the directory `path`.
    pub fn new(path: &str) -> (fs: LocalFileSystem)
        ensures
            fs.root() == path@,
    {
        LocalFileSystem { path: path.to_owned() }
    }

    /// The root directory as it was given.
    pub fn root_path(&self) -> (path: &str)
        ensures
            path@ == self.root(),
    {
        self.path.as_str()
    }

    /// Tells whether `path`, joined onto the root and with its `.` and `..`
    /// segments resolved, still names the root or something below it.
    pub fn path_valid(&self, path: &str) -> (b: bool)
        ensures
            b == stays_within(self.root(), path@),
    {
        let root = chars_of(self.path.as_str());
        let chars = chars_of(path);
        let base = resolve_chars(&root);
        let target = if chars.len() > 0 && chars[0] == '/' {
            resolve_chars(&chars)
        } else {
            let start = resolve_chars(&root);
            assert(root.len() + chars.len() <= 2 * usize::MAX);
            follow(start, &chars)
        };
        assert(base@ == resolve(self.root()));
        assert(target@ == resolve_from(self.root(), path@));
        if target.absolute != base.absolute || target.ups != base.ups || base.names.len()
            > target.names.len() {
            return false;
        }
        let mut i: usize = 0;
        while i < base.names.len()
            invariant
                i <= base.names@.len() <= target.names@.len(),
                base@ == resolve(self.root()),
                target@ == resolve_from(self.root(), path@),
                target@.absolute == base@.absolute,
                target@.ups == base@.ups,
                names_view(target.names@).take(i as int) == names_view(base.names@).take(i as int),
            decreases base.names@.len() - i,
        {
            if !same_name(&base.names[i], &target.names[i]) {
                assert(names_view(target.names@).take(base.names@.len() as int)[i as int]
                    != names_view(base.names@)[i as int]);
                return false;
            }
            assert(names_view(target.names@).take(i + 1) == names_view(target.names@).take(
                i as int,
            ).push(target.names@[i as int]@));
            assert(names_view(base.names@).take(i + 1) == names_view(base.names@).take(
                i as int,
            ).push(base.names@[i as int]@));
            i = i + 1;
        }
        assert(names_view(base.names@).take(base.names@.len() as int) == names_view(base.names@));
        true
    }
}

impl LocalFileSystem {
    /// Joins `path` onto the root.
    pub fn join(&self, path: &str) -> (full: String)
        ensures
            full@ == joined(self.root(), path@),
    {
        let root = chars_of(self.path.as_str());
        let chars = chars_of(path);
        if chars.len() > 0 && chars[0] == '/' {
            return path.to_owned();
        }
        let mut full = self.path.clone();
        if !(root.len() == 0 || root[root.len() - 1] == '/') {
            proof {
                reveal_strlit("/");
            }
            full.append("/");
            assert(full@ == self.root() + seq!['/']);
        }
        full.append(path);
        full
    }
}

/// A directory on a disk: the root decides which paths are valid, the disk
/// is asked about the paths that are, each joined onto the root. No method
/// asks the disk about a path that leaves the root.
pub struct Directory<D> where D: FileSystem {
    root: LocalFileSystem,
    disk: D,
}

impl<D> Directory<D> where D: FileSystem {
    /// The root directory.
    pub closed spec fn root(&self) -> Seq<char> {
        self.root.root()
    }

    /// The disk that holds the directory.
    pub closed spec fn disk(&self) -> D {
        self.disk
    }

    /// The directory `root` on `disk`.
    pub fn new(root: LocalFileSystem, disk: D) -> (directory: Self)
        ensures
            directory.root() == root.root(),
            directory.disk() == disk,
    {
        Directory { root, disk }
    }
}

impl<D> FileSystem for Directory<D> where D: FileSystem {
    /// Nothing outside the root is a file of the directory. Of a path
    /// inside, what the disk says of the joined path.
    fn is_file(&self, path: &str) -> (b: bool)
        ensures
            !stays_within(self.root(), path@) ==> !b,
            stays_within(self.root(), path@) ==> may_say_file(
                &self.disk(),
                joined(self.root(), path@),
                b,
            ),
    {
        if !self.root.path_valid(path) {
            return false;
        }
        let full = self.root.join(path);
        self.disk.is_file(full.as_str())
    }

    /// `PathOutsideRoot` for a path outside the root. Of a path inside,
    /// what the disk says of the joined path.
    fn last_modified(&self, path: &str) -> (r: Result<i64, Error>)
        ensures
            !stays_within(self.root(), path@) ==> r == Err::<i64, Error>(Error::PathOutsideRoot),
            stays_within(self.root(), path@) ==> may_say_modified(
                &self.disk(),
                joined(self.root(), path@),
                answer(r),
            ),
    {
        if !self.root.path_valid(path) {
            return Err(Error::PathOutsideRoot);
        }
        let full = self.root.join(path);
        self.disk.last_modified(full.as_str())
    }

    /// `PathOutsideRoot` for a path outside the root. Of a path inside,
    /// what the disk says of the joined path.
    fn size(&self, path: &str) -> (r: Result<u64, Error>)
        ensures
            !stays_within(self.root(), path@) ==> r == Err::<u64, Error>(Error::PathOutsideRoot),
            stays_within(self.root(), path@) ==> may_say_size(
                &self.disk(),
                joined(self.root(), path@),
                answer(r),
            ),
    {
        if !self.root.path_valid(path) {
            return Err(Error::PathOutsideRoot);
        }
        let full = self.root.join(path);
        self.disk.size(full.as_str())
    }

    /// `PathOutsideRoot` for a path outside the root: the disk is not even
    /// asked. Of a path inside, what the disk hands out for the joined
    /// path, opened at `start`.
    fn open(&self, path: &str, start: Option<u64>) -> (r: Result<Vec<u8>, Error>)
        ensures
            !stays_within(self.root(), path@) ==> r == Err::<Vec<u8>, Error>(
                Error::PathOutsideRoot,
            ),
            stays_within(self.root(), path@) ==> may_say_opened(
                &self.disk(),
                joined(self.root(), path@),
                match start {
                    Some(at) => at,
                    None => 0,
                },
                answer_bytes(r),
            ),
    {
        if !self.root.path_valid(path) {
            return Err(Error::PathOutsideRoot);
        }
        let full = self.root.join(path);
        let at: u64 = match start {
            Some(at) => at,
            None => 0,
        };
        self.disk.open(full.as_str(), Some(at))
    }

    /// A path that leaves the root is never valid. Of a path that stays
    /// inside, the disk is asked once more: it may know of links.
    fn path_valid(&self, path: &str) -> (b: bool)
        ensures
            !stays_within(self.root(), path@) ==> !b,
            stays_within(self.root(), path@) ==> may_say_valid(
                &self.disk(),
                joined(self.root(), path@),
                b,
            ),
    {
        if !self.root.path_valid(path) {
            return false;
        }
        let full = self.root.join(path);
        self.disk.path_valid(full.as_str())
    }
}

} // verus!
