//! Paths, as text in which `/` separates the parts.

use crate::text::{chars_of, joined};
use vstd::prelude::*;
use vstd::string::*;

verus! {

/// The character that separates the parts of a path.
pub open spec fn separator() -> char {
    '/'
}

/// Where the last part of `path` starts: behind its last separator.
pub open spec fn last_part_start(path: Seq<char>) -> nat
    decreases path.len(),
{
    if path.len() == 0 || path.last() == separator() {
        path.len()
    } else {
        last_part_start(path.drop_last())
    }
}

/// The name that `path` ends in, if it has one.
///
/// Empty parts and parts that are `.` say nothing and are passed over. There
/// is no name where nothing else is left, or where the last part is `..`.
pub open spec fn file_name(path: Seq<char>) -> Option<Seq<char>>
    decreases path.len(),
{
    proof {
        lemma_last_part_start(path);
    }
    let start = last_part_start(path) as int;
    let part = path.skip(start);
    if part == Seq::<char>::empty() || part == seq!['.'] {
        if start == 0 {
            None
        } else {
            file_name(path.take(start - 1))
        }
    } else if part == seq!['.', '.'] {
        None
    } else {
        Some(part)
    }
}

/// `path` looked up from `base`: `path` itself where it is absolute, and
/// otherwise behind `base`, with one separator between them.
pub open spec fn join(base: Seq<char>, path: Seq<char>) -> Seq<char> {
    if path.len() > 0 && path[0] == separator() {
        path
    } else if base.len() == 0 || base.last() == separator() {
        base + path
    } else {
        base.push(separator()) + path
    }
}

/// The last part of a path holds no separator, and there is one before it
/// unless it is the whole path.
pub proof fn lemma_last_part_start(path: Seq<char>)
    ensures
        last_part_start(path) <= path.len(),
        forall|i: int|
            last_part_start(path) <= i < path.len() ==> #[trigger] path[i] != separator(),
        last_part_start(path) > 0 ==> path[last_part_start(path) - 1] == separator(),
    decreases path.len(),
{
    if path.len() > 0 && path.last() != separator() {
        lemma_last_part_start(path.drop_last());
        let start = last_part_start(path);
        assert forall|i: int| start <= i < path.len() implies #[trigger] path[i] != separator() by {
            if i < path.len() - 1 {
                assert(path.drop_last()[i] == path[i]);
            }
        }
    }
}

/// The name that a path ends in is not empty, and holds no separator.
pub proof fn lemma_file_name_is_one_part(path: Seq<char>)
    ensures
        file_name(path) matches Some(name) ==> name.len() > 0 && forall|i: int|
            0 <= i < name.len() ==> #[trigger] name[i] != separator(),
    decreases path.len(),
{
    lemma_last_part_start(path);
    let start = last_part_start(path) as int;
    let part = path.skip(start);
    if part == Seq::<char>::empty() || part == seq!['.'] {
        if start > 0 {
            lemma_file_name_is_one_part(path.take(start - 1));
        }
    } else {
        if part.len() == 0 {
            assert(part =~= Seq::<char>::empty());
        }
        assert forall|i: int| 0 <= i < part.len() implies #[trigger] part[i] != separator() by {
            assert(part[i] == path[start + i]);
        }
    }
}

/// The name that `path` ends in, if it has one.
pub fn path_file_name(path: &str) -> (name: Option<String>)
    ensures
        match name {
            Some(name) => file_name(path@) == Some(name@),
            None => file_name(path@) is None,
        },
{
    let chars = chars_of(path);
    let mut end: usize = chars.len();
    assert(path@.take(end as int) =~= path@);
    loop
        invariant
            end <= chars@.len(),
            chars@ == path@,
            file_name(path@) == file_name(path@.take(end as int)),
        decreases end,
    {
        let ghost part = path@.take(end as int);
        let mut start: usize = end;
        while start > 0 && chars[start - 1] != '/'
            invariant
                start <= end <= chars@.len(),
                chars@ == path@,
                part == path@.take(end as int),
                last_part_start(part) == last_part_start(path@.take(start as int)),
            decreases start,
        {
            assert(path@.take(start as int).drop_last() =~= path@.take(start - 1));
            start = start - 1;
        }
        proof {
            lemma_last_part_start(part);
            assert(last_part_start(part) == start);
            assert(part.skip(start as int) =~= path@.subrange(start as int, end as int));
        }
        let len: usize = end - start;
        if len == 0 || (len == 1 && chars[start] == '.') {
            proof {
                if len == 0 {
                    assert(part.skip(start as int) =~= Seq::<char>::empty());
                } else {
                    assert(part.skip(start as int) =~= seq!['.']);
                }
            }
            if start == 0 {
                return None;
            }
            assert(part.take(start - 1) =~= path@.take(start - 1));
            end = start - 1;
        } else if len == 2 && chars[start] == '.' && chars[start + 1] == '.' {
            assert(part.skip(start as int) =~= seq!['.', '.']);
            return None;
        } else {
            proof {
                let name = part.skip(start as int);
                assert(name.len() == len);
                if len == 1 {
                    assert(name[0] != '.');
                } else if len == 2 {
                    assert(name[0] == chars@[start as int]);
                    assert(name[1] == chars@[start + 1]);
                    assert(seq!['.', '.'][0] == '.');
                    assert(seq!['.', '.'][1] == '.');
                }
            }
            return Some(path.substring_char(start, end).to_string());
        }
    }
}

/// `path` looked up from `base`.
pub fn path_join(base: &str, path: &str) -> (joined_path: String)
    ensures
        joined_path@ == join(base@, path@),
{
    let base_chars = chars_of(base);
    let path_chars = chars_of(path);
    proof {
        reveal_strlit("/");
    }
    if path_chars.len() > 0 && path_chars[0] == '/' {
        path.to_string()
    } else if base_chars.len() == 0 || base_chars[base_chars.len() - 1] == '/' {
        joined(base, path)
    } else {
        let folder = joined(base, "/");
        assert(folder@ =~= base@.push(separator()));
        joined(folder.as_str(), path)
    }
}

proof fn lemma_last_part(folder: Seq<char>, name: Seq<char>)
    requires
        forall|i: int| 0 <= i < name.len() ==> #[trigger] name[i] != '/',
    ensures
        last_part_start(folder + seq!['/'] + name) == folder.len() + 1,
        last_part_start(name) == 0,
    decreases name.len(),
{
    let path = folder + seq!['/'] + name;
    if name.len() > 0 {
        let front = name.drop_last();
        assert forall|i: int| 0 <= i < front.len() implies #[trigger] front[i] != '/' by {
            assert(front[i] == name[i]);
        }
        lemma_last_part(folder, front);
        assert(path.drop_last() =~= folder + seq!['/'] + front);
        assert(path.last() == name[name.len() - 1]);
        assert(name.last() == name[name.len() - 1]);
    } else {
        assert(path.last() == '/');
    }
}

/// A file is named by what its path ends in, whatever folder it is in.
pub proof fn lemma_path_ends_in_name(folder: Seq<char>, name: Seq<char>)
    requires
        name.len() > 0,
        name != seq!['.'],
        name != seq!['.', '.'],
        forall|i: int| 0 <= i < name.len() ==> #[trigger] name[i] != '/',
    ensures
        file_name(folder + seq!['/'] + name) == Some(name),
        file_name(name) == Some(name),
{
    let path = folder + seq!['/'] + name;
    lemma_last_part(folder, name);
    assert(path.skip(folder.len() as int + 1) =~= name);
    assert(name.skip(0) =~= name);
    assert(name != Seq::<char>::empty());
}

/// What stands behind a name and says nothing leaves the name as it is: a
/// separator, or a part that is `.`.
pub proof fn lemma_idle_parts_are_passed_over(path: Seq<char>)
    ensures
        file_name(path + seq!['/']) == file_name(path),
        file_name(path + seq!['/', '.']) == file_name(path),
{
    let nothing = Seq::<char>::empty();
    let longer = path + seq!['/'];
    lemma_last_part(path, nothing);
    assert(path + seq!['/'] + nothing =~= longer);
    assert(longer.skip(path.len() as int + 1) =~= nothing);
    assert(longer.take(path.len() as int) =~= path);

    let dotted = path + seq!['/', '.'];
    lemma_last_part(path, seq!['.']);
    assert(path + seq!['/'] + seq!['.'] =~= dotted);
    assert(dotted.skip(path.len() as int + 1) =~= seq!['.']);
    assert(dotted.take(path.len() as int) =~= path);
}

/// A path that ends in `..` has no name, and neither has one with no other part
/// than `.`.
pub proof fn lemma_some_paths_have_no_name(path: Seq<char>)
    ensures
        file_name(path + seq!['/', '.', '.']) is None,
        file_name(seq!['.', '.']) is None,
        file_name(seq!['.']) is None,
        file_name(Seq::<char>::empty()) is None,
{
    let up = seq!['.', '.'];
    let here = seq!['.'];
    let nothing = Seq::<char>::empty();
    lemma_last_part(path, up);
    assert(path + seq!['/'] + up =~= path + seq!['/', '.', '.']);
    assert((path + seq!['/'] + up).skip(path.len() as int + 1) =~= up);
    assert(up[1] == '.');
    assert(up.len() != here.len());
    assert(up.skip(0) =~= up);
    lemma_last_part(path, here);
    assert(here.skip(0) =~= here);
    assert(nothing.skip(0) =~= nothing);
}

/// Paths are joined with one separator between them. A path that starts with a
/// separator stands for itself.
pub proof fn lemma_joined_paths(base: Seq<char>, path: Seq<char>)
    ensures
        join(base, seq!['/'] + path) == seq!['/'] + path,
        path.len() > 0 && path[0] != '/' ==> join(base + seq!['/'], path) == base + seq!['/']
            + path,
        path.len() > 0 && path[0] != '/' && base.len() > 0 && base.last() != '/' ==> join(base, path)
            == base + seq!['/'] + path,
        path.len() == 0 && base.len() > 0 && base.last() != '/' ==> join(base, path) == base
            + seq!['/'],
        path.len() == 0 ==> join(base + seq!['/'], path) == base + seq!['/'],
        path.len() > 0 && path[0] != '/' ==> join(Seq::<char>::empty(), path) == path,
{
    assert((seq!['/'] + path)[0] == '/');
    assert((base + seq!['/']).last() == '/');
    assert(base.push('/') =~= base + seq!['/']);
    assert(base + seq!['/'] + path =~= base.push('/') + path);
    if path.len() == 0 {
        assert(base.push('/') + path =~= base + seq!['/']);
    }
    assert(Seq::<char>::empty() + path =~= path);
}

} // verus!
