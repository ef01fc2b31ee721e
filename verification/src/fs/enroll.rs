//! Packing a directory: the names under which its files are enrolled.

use crate::error::Error;
use crate::fs::order::{file_views, FileView, PackageFile};
use crate::fs::package::{package_bytes, package_size, write_package};
use crate::outside::push_char;
use crate::text::{chars_of, matches_at, occurs_at};
use vstd::prelude::*;

verus! {

/// The first position at or after `from` at which `pattern` stands in `s`;
/// -1 where there is none.
pub open spec fn first_occurrence(s: Seq<char>, pattern: Seq<char>, from: int) -> int
    decreases s.len() - from,
{
    if from < 0 || from + pattern.len() > s.len() {
        -1
    } else if occurs_at(s, pattern, from) || from >= s.len() {
        from
    } else {
        first_occurrence(s, pattern, from + 1)
    }
}

/// `s` without the first occurrence of `pattern`; `s` itself where
/// `pattern` does not occur.
pub open spec fn without_first(s: Seq<char>, pattern: Seq<char>) -> Seq<char> {
    let at = first_occurrence(s, pattern, 0);
    if at < 0 {
        s
    } else {
        s.take(at) + s.skip(at + pattern.len())
    }
}

/// `s` with `/` in place of every `\`.
pub open spec fn forward_slashes(s: Seq<char>) -> Seq<char> {
    s.map_values(
        |c: char|
            if c == '\\' {
                '/'
            } else {
                c
            },
    )
}

/// The number of `/` that `s` begins with.
pub open spec fn leading_slashes(s: Seq<char>) -> nat
    decreases s.len(),
{
    if s.len() > 0 && s[0] == '/' {
        1 + leading_slashes(s.skip(1))
    } else {
        0
    }
}

/// The name under which the file found at `full` is enrolled in the
/// package of the directory `root`: `full` without `root`, with `/` as its
/// only separator and none in front.
pub open spec fn entry_name(root: Seq<char>, full: Seq<char>) -> Seq<char> {
    let relative = forward_slashes(without_first(full, root));
    relative.skip(leading_slashes(relative) as int)
}

/// The files under the names that they are enrolled with.
pub open spec fn enrolled(root: Seq<char>, found: Seq<FileView>) -> Seq<FileView> {
    found.map_values(|file: FileView| FileView { path: entry_name(root, file.path), ..file })
}

/// A text does not begin with more `/` than it has characters.
proof fn lemma_leading_slashes_bound(s: Seq<char>)
    ensures
        leading_slashes(s) <= s.len(),
    decreases s.len(),
{
    if s.len() > 0 && s[0] == '/' {
        lemma_leading_slashes_bound(s.skip(1));
    }
}

/// Finds the first occurrence of `pattern` in `s`.
fn find_text(s: &Vec<char>, pattern: &Vec<char>) -> (at: Option<usize>)
    ensures
        match at {
            Some(i) => first_occurrence(s@, pattern@, 0) == i && i + pattern@.len() <= s@.len(),
            None => first_occurrence(s@, pattern@, 0) < 0,
        },
{
    if pattern.len() > s.len() {
        return None;
    }
    let last: usize = s.len() - pattern.len();
    let mut i: usize = 0;
    loop
        invariant
            i <= last,
            last == s@.len() - pattern@.len(),
            first_occurrence(s@, pattern@, 0) == first_occurrence(s@, pattern@, i as int),
        decreases last - i,
    {
        if matches_at(s, pattern, i) {
            return Some(i);
        }
        if i == last {
            proof {
                if pattern@.len() == 0 {
                    assert(s@.subrange(i as int, i as int) == pattern@);
                }
                assert(first_occurrence(s@, pattern@, i + 1) == -1);
            }
            return None;
        }
        i = i + 1;
    }
}

/// Computes the name under which a file is enrolled.
pub fn enroll_name(root: &str, full: &str) -> (name: String)
    ensures
        name@ == entry_name(root@, full@),
{
    let pattern = chars_of(root);
    let chars = chars_of(full);
    let total: usize = chars.len();
    let (cut_from, cut_to): (usize, usize) = match find_text(&chars, &pattern) {
        Some(at) => (at, at + pattern.len()),
        None => (total, total),
    };
    let ghost kept = without_first(full@, root@);
    assert(kept == chars@.take(cut_from as int) + chars@.skip(cut_to as int)) by {
        if cut_from == chars@.len() {
            assert(chars@.take(cut_from as int) == chars@);
            assert(chars@ + chars@.skip(cut_to as int) == chars@);
        }
    }
    let ghost relative = forward_slashes(kept);
    let mut name = String::new();
    let mut leading: bool = true;
    let mut i: usize = 0;
    assert(relative.skip(0) == relative);
    while i < chars.len()
        invariant
            i <= chars@.len(),
            cut_from <= cut_to <= chars@.len(),
            kept == chars@.take(cut_from as int) + chars@.skip(cut_to as int),
            relative == forward_slashes(kept),
            ({
                let done = if i <= cut_from {
                    i as int
                } else if i <= cut_to {
                    cut_from as int
                } else {
                    i - (cut_to - cut_from)
                };
                &&& leading ==> name@.len() == 0 && entry_name(root@, full@) == relative.skip(
                    done,
                ).skip(leading_slashes(relative.skip(done)) as int)
                &&& !leading ==> entry_name(root@, full@) == name@ + relative.skip(done)
            }),
        decreases chars@.len() - i,
    {
        let ghost done = if i <= cut_from {
            i as int
        } else if i <= cut_to {
            cut_from as int
        } else {
            i - (cut_to - cut_from)
        };
        if i < cut_from || i >= cut_to {
            let c = if chars[i] == '\\' {
                '/'
            } else {
                chars[i]
            };
            assert(kept[done] == chars@[i as int]);
            assert(relative[done] == c);
            assert(relative.skip(done).skip(1) == relative.skip(done + 1));
            assert(relative.skip(done)[0] == c);
            if leading && c == '/' {
                proof {
                    let k = leading_slashes(relative.skip(done + 1)) as int;
                    lemma_leading_slashes_bound(relative.skip(done + 1));
                    assert(leading_slashes(relative.skip(done)) == 1 + k);
                    assert(relative.skip(done).skip(1 + k) == relative.skip(done + 1).skip(k));
                }
            } else {
                let ghost before = name@;
                push_char(&mut name, c);
                proof {
                    if leading {
                        assert(leading_slashes(relative.skip(done)) == 0);
                        assert(relative.skip(done).skip(0) == relative.skip(done));
                    }
                    assert(before + relative.skip(done) == before.push(c) + relative.skip(
                        done + 1,
                    ));
                }
                leading = false;
            }
        }
        i = i + 1;
    }
    proof {
        let end = relative.len() as int;
        assert(relative.skip(end) == Seq::<char>::empty());
        assert(name@ + Seq::<char>::empty() == name@);
    }
    name
}

/// Packs the files found under the directory `root` and appends the
/// container to `writer`.
///
/// Each file comes with the path at which it was found; it is enrolled
/// under `entry_name` of that path. Fails with `TooLarge`, and leaves
/// `writer` alone, exactly where `write_package` does.
pub fn create_package_from_dir(root: &str, found: Vec<PackageFile>, writer: &mut Vec<u8>) -> (r:
    Result<(), Error>)
    ensures
        match r {
            Ok(_) => final(writer)@ == old(writer)@ + package_bytes(
                enrolled(root@, file_views(found@)),
            ) && old(writer)@.len() + package_size(enrolled(root@, file_views(found@)))
                <= usize::MAX,
            Err(e) => e == Error::TooLarge && final(writer)@ == old(writer)@ && old(writer)@.len()
                + package_size(enrolled(root@, file_views(found@))) > usize::MAX,
        },
{
    let ghost given = file_views(found@);
    let mut found = found;
    let mut files: Vec<PackageFile> = Vec::new();
    // The files are taken from the back, so they are put in order again
    // before they are written.
    while found.len() > 0
        invariant
            found@.len() <= given.len(),
            file_views(found@) == given.take(found@.len() as int),
            files@.len() == given.len() - found@.len(),
            forall|k: int|
                0 <= k < files@.len() ==> (#[trigger] files@[k])@ == enrolled(
                    root@,
                    given,
                )[given.len() - 1 - k],
        decreases found@.len(),
    {
        let ghost before = found@;
        let file = found.pop().unwrap();
        assert(file@ == given[before.len() - 1]) by {
            assert(file_views(before)[before.len() - 1] == file@);
        }
        assert(file_views(found@) == given.take(found@.len() as int)) by {
            assert(file_views(found@) == file_views(before).drop_last());
        }
        let path = enroll_name(root, file.path.as_str());
        files.push(
            PackageFile { path, last_modified: file.last_modified, content: file.content },
        );
    }
    let mut ordered: Vec<PackageFile> = Vec::new();
    while files.len() > 0
        invariant
            files@.len() <= given.len(),
            ordered@.len() == given.len() - files@.len(),
            forall|k: int|
                0 <= k < files@.len() ==> (#[trigger] files@[k])@ == enrolled(
                    root@,
                    given,
                )[given.len() - 1 - k],
            forall|k: int|
                0 <= k < ordered@.len() ==> (#[trigger] ordered@[k])@ == enrolled(root@, given)[k],
        decreases files@.len(),
    {
        let file = files.pop().unwrap();
        ordered.push(file);
    }
    assert(file_views(ordered@) == enrolled(root@, given));
    write_package(&ordered, writer)
}

} // verus!
