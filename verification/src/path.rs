//! Paths as text, with `/` between their components. Whoever hands a path over writes it so,
//! on systems with another separator too.
use crate::text::{chars_of, slice_of, string_of};
use vstd::prelude::*;

verus! {

/// `name` taken relative to `base`. An absolute `name` stands on its own.
pub open spec fn path_joined(base: Seq<char>, name: Seq<char>) -> Seq<char> {
    if name.len() > 0 && name[0] == '/' {
        name
    } else if base.len() == 0 || base.last() == '/' {
        base + name
    } else {
        base.push('/') + name
    }
}

/// Takes `name` relative to `base`.
pub fn join_path(base: &str, name: &str) -> (r: String)
    ensures
        r@ == path_joined(base@, name@),
{
    let base_chars = chars_of(base);
    let name_chars = chars_of(name);
    if name_chars.len() > 0 && name_chars[0] == '/' {
        return name.to_owned();
    }
    let mut out = base.to_owned();
    if base_chars.len() > 0 && base_chars[base_chars.len() - 1] != '/' {
        out.push('/');
    }
    out.append(name);
    out
}

/// The position of the last `c` in `s`, or -1 where there is none.
pub open spec fn last_index(s: Seq<char>, c: char) -> int
    decreases s.len(),
{
    if s.len() == 0 {
        -1
    } else if s.last() == c {
        s.len() - 1
    } else {
        last_index(s.drop_last(), c)
    }
}

/// What the last position of a character is.
pub proof fn lemma_last_index(s: Seq<char>, c: char)
    ensures
        -1 <= last_index(s, c) < s.len(),
        last_index(s, c) >= 0 ==> s[last_index(s, c)] == c,
        forall|j: int| last_index(s, c) < j < s.len() ==> s[j] != c,
    decreases s.len(),
{
    if s.len() > 0 && s.last() != c {
        lemma_last_index(s.drop_last(), c);
        assert forall|j: int| last_index(s, c) < j < s.len() implies s[j] != c by {
            if j < s.len() - 1 {
                assert(s.drop_last()[j] == s[j]);
            }
        }
    }
}

/// The number of characters up to and with the last `c` before `end`.
pub fn after_last(chars: &Vec<char>, c: char, end: usize) -> (r: usize)
    requires
        end <= chars@.len(),
    ensures
        r <= end,
        r - 1 == last_index(chars@.take(end as int), c),
{
    let mut i: usize = end;
    while i > 0 && chars[i - 1] != c
        invariant
            i <= end <= chars@.len(),
            last_index(chars@.take(i as int), c) == last_index(chars@.take(end as int), c),
        decreases i,
    {
        assert(chars@.take(i as int).drop_last() =~= chars@.take(i - 1));
        i = i - 1;
    }
    i
}

/// The last component of a path, unless it leads to a parent directory. Empty components
/// and components `.` do not count.
pub open spec fn file_name(path: Seq<char>) -> Option<Seq<char>>
    decreases path.len(),
    via file_name_decreases
{
    let slash = last_index(path, '/');
    let last = path.skip(slash + 1);
    if last == Seq::<char>::empty() || last == seq!['.'] {
        if slash < 0 {
            None
        } else {
            file_name(path.take(slash))
        }
    } else if last == seq!['.', '.'] {
        None
    } else {
        Some(last)
    }
}

#[via_fn]
proof fn file_name_decreases(path: Seq<char>) {
    lemma_last_index(path, '/');
}

/// The part of a file name before its last dot, or all of it where it has no extension.
pub open spec fn stem_of(name: Seq<char>) -> Seq<char> {
    if last_index(name, '.') <= 0 {
        name
    } else {
        name.take(last_index(name, '.'))
    }
}

/// The part of a file name behind its last dot. A name that only starts with a dot has no
/// extension.
pub open spec fn extension_of(name: Seq<char>) -> Option<Seq<char>> {
    if last_index(name, '.') <= 0 {
        None
    } else {
        Some(name.skip(last_index(name, '.') + 1))
    }
}

/// The last component of a path.
pub fn path_file_name(path: &str) -> (r: Option<String>)
    ensures
        r is Some == file_name(path@) is Some,
        r matches Some(name) ==> file_name(path@) == Some(name@),
{
    let chars = chars_of(path);
    let mut end: usize = chars.len();
    assert(chars@.take(end as int) =~= path@);
    loop
        invariant
            end <= chars@.len(),
            file_name(chars@.take(end as int)) == file_name(path@),
        decreases end,
    {
        let start: usize = after_last(&chars, '/', end);
        let ghost current = chars@.take(end as int);
        let last = slice_of(&chars, start, end);
        assert(last@ =~= current.skip(last_index(current, '/') + 1));
        let is_dot: bool = last.len() == 1 && last[0] == '.';
        assert(is_dot == (last@ =~= seq!['.']));
        if last.len() == 0 || is_dot {
            if last.len() == 0 {
                assert(last@ =~= Seq::<char>::empty());
            }
            if start == 0 {
                return None;
            }
            assert(current.take(start - 1) =~= chars@.take(start - 1));
            end = start - 1;
        } else {
            let is_parent: bool = last.len() == 2 && last[0] == '.' && last[1] == '.';
            assert(is_parent == (last@ =~= seq!['.', '.']));
            if is_parent {
                return None;
            }
            return Some(string_of(&last));
        }
    }
}

/// The stem of a file name.
pub fn name_stem(name: &str) -> (r: String)
    ensures
        r@ == stem_of(name@),
{
    let chars = chars_of(name);
    assert(chars@.take(chars@.len() as int) =~= name@);
    let dot: usize = after_last(&chars, '.', chars.len());
    if dot <= 1 {
        name.to_owned()
    } else {
        let stem = slice_of(&chars, 0, dot - 1);
        assert(stem@ =~= name@.take(dot - 1));
        string_of(&stem)
    }
}

/// The extension of a file name.
pub fn name_extension(name: &str) -> (r: Option<String>)
    ensures
        r is Some == extension_of(name@) is Some,
        r matches Some(extension) ==> extension_of(name@) == Some(extension@),
{
    let chars = chars_of(name);
    assert(chars@.take(chars@.len() as int) =~= name@);
    let dot: usize = after_last(&chars, '.', chars.len());
    if dot <= 1 {
        None
    } else {
        let extension = slice_of(&chars, dot, chars.len());
        assert(extension@ =~= name@.skip(dot as int));
        Some(string_of(&extension))
    }
}

/// A component behind the last slash is the file name, unless it is one that does not
/// count.
pub proof fn lemma_file_name_joined(base: Seq<char>, name: Seq<char>)
    requires
        name.len() > 0,
        !name.contains('/'),
        name != seq!['.'],
        name != seq!['.', '.'],
    ensures
        file_name(path_joined(base, name)) == Some(name),
{
    let path = path_joined(base, name);
    assert(name[0] != '/') by {
        assert(name.contains(name[0]));
    }
    lemma_last_index(path, '/');
    let start = path.len() - name.len();
    assert(path.skip(start) =~= name);
    assert forall|j: int| start <= j < path.len() implies path[j] != '/' by {
        assert(path[j] == name[j - start]);
        assert(name.contains(name[j - start]));
    }
    if start > 0 {
        assert(path[start - 1] == '/');
    }
    assert(last_index(path, '/') == start - 1);
}

/// How a path continues: behind a slash where there is none yet, and an absolute name stands
/// on its own.
pub proof fn lemma_paths_continue(base: Seq<char>, name: Seq<char>)
    ensures
        name.len() > 0 && name[0] == '/' ==> path_joined(base, name) == name,
        (name.len() == 0 || name[0] != '/') && base.len() > 0 && base.last() != '/' ==> path_joined(
            base,
            name,
        ) == base + seq!['/'] + name,
        (name.len() == 0 || name[0] != '/') && (base.len() == 0 || base.last() == '/')
            ==> path_joined(base, name) == base + name,
{
    assert(base.push('/') + name =~= base + seq!['/'] + name);
}

/// A file name is its stem, a dot and its extension, where it has one.
pub proof fn lemma_stem_and_extension(stem: Seq<char>, extension: Seq<char>)
    requires
        stem.len() > 0,
        !extension.contains('.'),
    ensures
        stem_of(stem + seq!['.'] + extension) == stem,
        extension_of(stem + seq!['.'] + extension) == Some(extension),
{
    let name = stem + seq!['.'] + extension;
    let at = stem.len() as int;
    lemma_last_index(name, '.');
    assert(name[at] == '.');
    assert forall|j: int| at < j < name.len() implies name[j] != '.' by {
        assert(extension.contains(extension[j - at - 1]));
    }
    assert(last_index(name, '.') == at);
    assert(name.take(at) =~= stem);
    assert(name.skip(at + 1) =~= extension);
}

/// A file name without a dot, or with one at its beginning only, has no extension.
pub proof fn lemma_no_extension(name: Seq<char>)
    requires
        forall|j: int| 1 <= j < name.len() ==> #[trigger] name[j] != '.',
    ensures
        stem_of(name) == name,
        extension_of(name) is None,
{
    lemma_last_index(name, '.');
    if last_index(name, '.') > 0 {
        assert(name[last_index(name, '.')] != '.');
    }
}

} // verus!
