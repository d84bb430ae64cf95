use vstd::prelude::*;
use vstd::string::StrSliceExecFns;

verus! {

/// The characters of a text, in order.
pub(crate) fn chars_of(s: &str) -> (r: Vec<char>)
    ensures
        r@ == s@,
{
    broadcast use vstd::string::axiom_spec_iter;
    let mut out: Vec<char> = Vec::new();
    for c in it: s.chars()
        invariant
            it.seq() == s@,
            out@ == s@.take(it.index()),
    {
        out.push(c);
    }
    assert(out@ =~= s@);
    out
}

/// Both separators that exported paths use.
pub open spec fn is_separator(c: char) -> bool {
    c == '/' || c == '\\'
}

/// Where the final segment of a path starts: just past its last separator,
/// or at 0 when it has none.
pub open spec fn segment_start(path: Seq<char>) -> int
    decreases path.len(),
{
    if path.len() == 0 {
        0
    } else if is_separator(path.last()) {
        path.len() as int
    } else {
        segment_start(path.drop_last())
    }
}

/// The final segment of a path: what follows its last separator.
pub open spec fn last_segment(path: Seq<char>) -> Seq<char> {
    path.subrange(segment_start(path), path.len() as int)
}

/// The key an image reference is looked up by: its final path segment, so
/// that `photos/cat.jpg` and `photos\cat.jpg` are both found as `cat.jpg`.
pub fn file_name_of(path: &str) -> (r: String)
    ensures
        r@ == last_segment(path@),
{
    let cs = chars_of(path);
    let mut start: usize = cs.len();
    proof {
        assert(path@.subrange(0, cs.len() as int) == path@);
    }
    while start > 0 && !(cs[start - 1] == '/' || cs[start - 1] == '\\')
        invariant
            start <= cs.len(),
            cs@ == path@,
            segment_start(path@) == segment_start(path@.subrange(0, start as int)),
        decreases start,
    {
        proof {
            assert(path@.subrange(0, start as int).drop_last() == path@.subrange(0, start - 1));
        }
        start = start - 1;
    }
    path.substring_char(start, cs.len()).to_owned()
}

/// Whether a file name has the extension `html`: it ends in `.html`, and
/// something comes before that dot (`.html` alone is a hidden file without
/// an extension).
pub open spec fn is_html_name(name: Seq<char>) -> bool {
    name.len() > 5 && name.subrange(name.len() - 5, name.len() as int) == seq!['.', 'h', 't', 'm', 'l']
}

/// Whether the scanner takes a file of this name as an HTML note.
pub fn has_html_extension(name: &str) -> (r: bool)
    ensures
        r == is_html_name(name@),
{
    let cs = chars_of(name);
    let n = cs.len();
    if n <= 5 {
        return false;
    }
    let r = cs[n - 5] == '.' && cs[n - 4] == 'h' && cs[n - 3] == 't' && cs[n - 2] == 'm' && cs[n - 1] == 'l';
    proof {
        let tail = name@.subrange(n - 5, n as int);
        if r {
            assert(tail =~= seq!['.', 'h', 't', 'm', 'l']);
        } else {
            if tail == seq!['.', 'h', 't', 'm', 'l'] {
                assert(tail[0] == name@[n - 5]);
                assert(tail[4] == name@[n - 1]);
                assert(tail[1] == name@[n - 4]);
                assert(tail[2] == name@[n - 3]);
                assert(tail[3] == name@[n - 2]);
            }
        }
    }
    r
}

/// An entry met while walking a directory tree: its full path, its file
/// name, and whether it is a regular file (and not a directory or a link).
pub struct ScanEntry {
    pub path: String,
    pub name: String,
    pub is_file: bool,
}

/// Whether the scanner takes this entry as an HTML note: a file with the
/// extension `html`.
pub open spec fn is_note_entry(e: ScanEntry) -> bool {
    e.is_file && is_html_name(e.name@)
}

/// Whether this entry of the image pool is the image looked up by `key`: a
/// file of exactly that name.
pub open spec fn is_pool_match_spec(e: ScanEntry, key: Seq<char>) -> bool {
    e.is_file && e.name@ == key
}

/// Whether the scanner takes this entry as an HTML note.
pub fn is_note(entry: &ScanEntry) -> (r: bool)
    ensures
        r == is_note_entry(*entry),
{
    entry.is_file && has_html_extension(entry.name.as_str())
}

/// Whether this entry of the image pool is the image looked up by `key`.
pub fn is_pool_match(entry: &ScanEntry, key: &String) -> (r: bool)
    ensures
        r == is_pool_match_spec(*entry, key@),
{
    entry.is_file && entry.name == *key
}

/// The position of the first entry that is the image looked up by `key`, in
/// the order given (the order in which the image pool was walked), or `None`
/// when none is.
pub fn find_first(entries: &Vec<ScanEntry>, key: &String) -> (r: Option<usize>)
    ensures
        match r {
            Some(i) => i < entries.len() && is_pool_match_spec(entries[i as int], key@) && forall|j: int|
                0 <= j < i ==> !is_pool_match_spec(#[trigger] entries[j], key@),
            None => forall|j: int| 0 <= j < entries.len() ==> !is_pool_match_spec(#[trigger] entries[j], key@),
        },
{
    let mut i: usize = 0;
    while i < entries.len()
        invariant
            i <= entries.len(),
            forall|j: int| 0 <= j < i ==> !is_pool_match_spec(#[trigger] entries[j], key@),
        decreases entries.len() - i,
    {
        if is_pool_match(&entries[i], key) {
            return Some(i);
        }
        i = i + 1;
    }
    None
}

} // verus!
