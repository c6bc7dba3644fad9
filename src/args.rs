use vstd::prelude::*;

use crate::text::{chars_of, string_of};

verus! {

/// The kind of drawing file being read.
#[derive(Clone, Copy, Debug, PartialEq, Eq, Structural)]
pub enum FileType {
    RawNFL,
    SplitNFL,
}

/// The extension of drawing files.
pub open spec fn nfl_extension() -> Seq<char> {
    seq!['.', 'n', 'f', 'l']
}

/// What marks a file whose segments were already split.
pub open spec fn split_suffix() -> Seq<char> {
    seq!['-', 's', 'p', 'l', 'i', 't']
}

/// A file whose name ends in `-split.nfl` was already split; any other is raw.
pub open spec fn file_type_spec(name: Seq<char>) -> FileType {
    let tail = split_suffix() + nfl_extension();
    if name.len() >= tail.len() && name.skip(name.len() - tail.len()) == tail {
        FileType::SplitNFL
    } else {
        FileType::RawNFL
    }
}

/// The name under which the split drawing is stored: `-split` put in front
/// of the last four characters (the extension) of `name`.
pub open spec fn split_name_spec(name: Seq<char>) -> Option<Seq<char>> {
    if name.len() < 4 {
        None
    } else {
        Some(name.take(name.len() - 4) + split_suffix() + name.skip(name.len() - 4))
    }
}

fn suffix_chars() -> (r: Vec<char>)
    ensures
        r@ == split_suffix(),
{
    let mut v: Vec<char> = Vec::new();
    v.push('-');
    v.push('s');
    v.push('p');
    v.push('l');
    v.push('i');
    v.push('t');
    assert(v@ =~= split_suffix());
    v
}

/// The type of the file called `name`, deduced from its name (see `file_type_spec`).
pub fn file_type_of(name: &str) -> (r: FileType)
    ensures
        r == file_type_spec(name@),
{
    let cs = chars_of(name);
    let mut tail = suffix_chars();
    tail.push('.');
    tail.push('n');
    tail.push('f');
    tail.push('l');
    assert(tail@ =~= split_suffix() + nfl_extension());
    let n = cs.len();
    let m = tail.len();
    if n < m {
        return FileType::RawNFL;
    }
    let mut i: usize = 0;
    while i < m
        invariant
            i <= m,
            m == tail@.len(),
            tail@ == split_suffix() + nfl_extension(),
            cs@ == name@,
            m <= n,
            n == cs@.len(),
            forall|k: int| 0 <= k < i ==> cs@[n - m + k] == tail@[k],
        decreases m - i,
    {
        if cs[n - m + i] != tail[i] {
            assert(cs@.skip(n - m)[i as int] != tail@[i as int]);
            assert(cs@.skip(n - m) != tail@);
            return FileType::RawNFL;
        }
        i += 1;
    }
    assert(cs@.skip(n - m) =~= tail@);
    FileType::SplitNFL
}

/// The name for the split copy of the file called `name` (see `split_name_spec`).
pub fn split_name(name: &str) -> (r: Option<String>)
    ensures
        match r {
            Some(s) => split_name_spec(name@) == Some(s@),
            None => split_name_spec(name@) is None,
        },
{
    let cs = chars_of(name);
    let n = cs.len();
    if n < 4 {
        return None;
    }
    let mut out: Vec<char> = Vec::new();
    let mut i: usize = 0;
    while i < n - 4
        invariant
            i <= n - 4,
            n == cs@.len(),
            out@ == cs@.take(i as int),
        decreases n - 4 - i,
    {
        out.push(cs[i]);
        assert(out@ =~= cs@.take(i + 1));
        i += 1;
    }
    let mut suffix = suffix_chars();
    out.append(&mut suffix);
    let ghost head = out@;
    while i < n
        invariant
            n >= 4,
            n - 4 <= i <= n,
            n == cs@.len(),
            out@ == head + cs@.subrange(n - 4, i as int),
        decreases n - i,
    {
        out.push(cs[i]);
        assert(out@ =~= head + cs@.subrange(n - 4, i + 1));
        i += 1;
    }
    assert(out@ =~= cs@.take(n - 4) + split_suffix() + cs@.skip(n - 4));
    Some(string_of(&out))
}

} // verus!
