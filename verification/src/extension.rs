//! Matching a file name against an extension.
//!
//! The extension of a file name is the text after its last dot, provided that
//! something stands before that dot: `clip.mp4` has the extension `mp4`,
//! `clip.mp4.bak` has `bak`, `clip.` has the empty extension, and `clip`,
//! `.hidden` and `..` have none.

use vstd::prelude::*;

verus! {

/// The name `..`, which stands for the parent directory and has no extension.
pub open spec fn parent_dir_name() -> Seq<char> {
    seq!['.', '.']
}

/// Whether `name` is a non-empty stem, a dot, and then exactly `extension`,
/// the dot being the last one of the name. Characters are compared as they
/// are: `MP4` is not `mp4`.
pub open spec fn has_extension(name: Seq<char>, extension: Seq<char>) -> bool {
    &&& name != parent_dir_name()
    &&& name.len() >= extension.len() + 2
    &&& name[name.len() - extension.len() - 1] == '.'
    &&& name.skip(name.len() - extension.len()) == extension
    &&& forall|i: int| 0 <= i < extension.len() ==> extension[i] != '.'
}

/// The name made of `stem`, a dot and `extension`.
pub open spec fn dotted(stem: Seq<char>, extension: Seq<char>) -> Seq<char> {
    stem + seq!['.'] + extension
}

/// A non-empty stem, a dot and a text without dots make a name that carries
/// that text as its extension, unless the name is `..`.
pub proof fn lemma_dotted_has_extension(stem: Seq<char>, extension: Seq<char>)
    requires
        stem.len() > 0,
        forall|i: int| 0 <= i < extension.len() ==> extension[i] != '.',
        dotted(stem, extension) != parent_dir_name(),
    ensures
        has_extension(dotted(stem, extension), extension),
{
    let name = dotted(stem, extension);
    assert(name.skip(name.len() - extension.len()) =~= extension);
}

/// A name that carries an extension is a non-empty stem, a dot and that
/// extension.
pub proof fn lemma_extension_splits_name(name: Seq<char>, extension: Seq<char>)
    requires
        has_extension(name, extension),
    ensures
        name.len() - extension.len() - 1 > 0,
        name == dotted(name.take(name.len() - extension.len() - 1), extension),
{
    let stem = name.take(name.len() - extension.len() - 1);
    assert forall|i: int| stem.len() < i < name.len() implies name[i] == extension[i - stem.len()
        - 1] by {
        assert(name.skip(name.len() - extension.len())[i - stem.len() - 1] == name[i]);
    }
    assert(name =~= dotted(stem, extension));
}

/// A name carries at most one extension: the match is exact, so a name that
/// carries `MP4` does not carry `mp4`.
pub proof fn lemma_extension_unique(name: Seq<char>, first: Seq<char>, second: Seq<char>)
    requires
        has_extension(name, first),
        has_extension(name, second),
    ensures
        first == second,
{
    let dot_of_first = name.len() - first.len() - 1;
    let dot_of_second = name.len() - second.len() - 1;
    if dot_of_first < dot_of_second {
        assert(name.skip(name.len() - first.len())[dot_of_second - dot_of_first - 1] == '.');
    } else if dot_of_second < dot_of_first {
        assert(name.skip(name.len() - second.len())[dot_of_first - dot_of_second - 1] == '.');
    }
}

/// The characters of a string, in order.
pub(crate) fn chars_of(s: &str) -> (v: Vec<char>)
    ensures
        v@ == s@,
{
    let mut v: Vec<char> = Vec::new();
    for c in it: s.chars()
        invariant
            v@ == it.seq().take(it.index() as int),
            it.seq() == s@,
    {
        v.push(c);
    }
    v
}

/// Decides [`has_extension`] on names and extensions held as characters.
pub(crate) fn chars_have_extension(name: &Vec<char>, extension: &Vec<char>) -> (r: bool)
    ensures
        r == has_extension(name@, extension@),
{
    let n: usize = name.len();
    let m: usize = extension.len();
    if n < 2 || m > n - 2 {
        return false;
    }
    if n == 2 && name[0] == '.' && name[1] == '.' {
        assert(name@ =~= parent_dir_name());
        return false;
    }
    assert(name@ != parent_dir_name()) by {
        if name@ == parent_dir_name() {
            assert(name@[0] == '.' && name@[1] == '.');
        }
    }
    let start: usize = n - m;
    if name[start - 1] != '.' {
        return false;
    }
    let mut i: usize = 0;
    while i < m
        invariant
            i <= m,
            m == extension@.len(),
            n == name@.len(),
            start == n - m,
            forall|k: int| 0 <= k < i ==> extension@[k] != '.',
            forall|k: int| 0 <= k < i ==> name@[start + k] == extension@[k],
        decreases m - i,
    {
        if extension[i] == '.' || name[start + i] != extension[i] {
            assert(name@.skip(start as int)[i as int] == name@[start + i]);
            return false;
        }
        i += 1;
    }
    assert(name@.skip(start as int) =~= extension@);
    true
}

/// Whether the file name `file_name` carries the extension `extension`,
/// given without its dot.
pub fn file_has_extension(file_name: &str, extension: &str) -> (r: bool)
    ensures
        r == has_extension(file_name@, extension@),
{
    let name = chars_of(file_name);
    let wanted = chars_of(extension);
    chars_have_extension(&name, &wanted)
}

} // verus!
