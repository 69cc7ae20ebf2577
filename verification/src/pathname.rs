use vstd::prelude::*;
use vstd::string::*;

verus! {

/// Index of the first character of a path's base name: one past the last
/// separator, or zero when the path holds no separator.
pub open spec fn key_start(p: Seq<char>) -> int
    decreases p.len(),
{
    if p.len() == 0 {
        0
    } else if p.last() == '/' {
        p.len() as int
    } else {
        key_start(p.drop_last())
    }
}

/// The file key of a path: its base name, extension included. This is the
/// stable identity the index is keyed by; it is independent of the object's
/// own declared name.
pub open spec fn key_of(p: Seq<char>) -> Seq<char> {
    p.subrange(key_start(p), p.len() as int)
}

/// A file key carries the recognized extension when it ends in `.yaml` and
/// has at least one character in front of the dot.
pub open spec fn has_yaml_ext(k: Seq<char>) -> bool {
    &&& k.len() > 5
    &&& k[k.len() - 5] == '.'
    &&& k[k.len() - 4] == 'y'
    &&& k[k.len() - 3] == 'a'
    &&& k[k.len() - 2] == 'm'
    &&& k[k.len() - 1] == 'l'
}

/// A path is eligible for loading when it names a regular file — a fact about
/// the filesystem that the caller supplies — and its base name carries the
/// recognized extension. Directories, sockets, vanished files and other
/// extensions are silently ignored by every load transition. A path that no
/// longer exists (a removed path, the source of a rename) names nothing, so
/// its retraction is judged by `has_yaml_ext` on its base name alone.
pub open spec fn eligible(p: Seq<char>, is_file: bool) -> bool {
    is_file && has_yaml_ext(key_of(p))
}

/// A path whose name ends with the reserved token `stop` signals orderly
/// shutdown of the watch loop, regardless of extension.
pub open spec fn is_stop_path(p: Seq<char>) -> bool {
    &&& p.len() >= 4
    &&& p[p.len() - 4] == 's'
    &&& p[p.len() - 3] == 't'
    &&& p[p.len() - 2] == 'o'
    &&& p[p.len() - 1] == 'p'
}

/// `key_start` points into the path, nothing from it on is a separator, and
/// it is preceded by a separator unless it is the start of the path.
pub proof fn lemma_key_start_bounds(p: Seq<char>)
    ensures
        0 <= key_start(p) <= p.len(),
        forall|j: int| key_start(p) <= j < p.len() ==> p[j] != '/',
        key_start(p) > 0 ==> p[key_start(p) - 1] == '/',
    decreases p.len(),
{
    if p.len() == 0 {
    } else if p.last() == '/' {
    } else {
        lemma_key_start_bounds(p.drop_last());
        assert(forall|j: int| key_start(p) <= j < p.len() - 1 ==> p.drop_last()[j] == p[j]);
    }
}

/// The three properties of `lemma_key_start_bounds` determine `key_start`:
/// any index with them is the start of the base name.
pub proof fn lemma_key_start_unique(p: Seq<char>, i: int)
    requires
        0 <= i <= p.len(),
        forall|j: int| i <= j < p.len() ==> p[j] != '/',
        i > 0 ==> p[i - 1] == '/',
    ensures
        i == key_start(p),
{
    lemma_key_start_bounds(p);
    if i < key_start(p) {
        assert(p[key_start(p) - 1] == '/');
        assert(p[key_start(p) - 1] != '/');
    } else if i > key_start(p) {
        assert(p[i - 1] == '/');
        assert(p[i - 1] != '/');
    }
}

/// Computes the file key of a path: the base name after the last separator.
pub fn file_key(path: &str) -> (k: String)
    ensures
        k@ == key_of(path@),
{
    let n: usize = path.unicode_len();
    let mut start: usize = 0;
    let mut j: usize = 0;
    while j < n
        invariant
            n == path@.len(),
            0 <= start <= j <= n,
            start > 0 ==> path@[start - 1] == '/',
            forall|t: int| start <= t < j ==> path@[t] != '/',
        decreases n - j,
    {
        if path.get_char(j) == '/' {
            start = j + 1;
        }
        j = j + 1;
    }
    proof {
        lemma_key_start_unique(path@, start as int);
    }
    let tail: &str = path.substring_char(start, n);
    String::from_str(tail)
}

/// Whether a path's base name ends in `.yaml` with a non-empty stem: the
/// name-only half of eligibility, and all that can be asked of a path that no
/// longer exists on disk.
pub fn has_yaml_name(path: &str) -> (r: bool)
    ensures
        r == has_yaml_ext(key_of(path@)),
{
    let k = file_key(path);
    let ks: &str = k.as_str();
    let n: usize = ks.unicode_len();
    if n <= 5 {
        return false;
    }
    ks.get_char(n - 5) == '.' && ks.get_char(n - 4) == 'y' && ks.get_char(n - 3) == 'a'
        && ks.get_char(n - 2) == 'm' && ks.get_char(n - 1) == 'l'
}

/// Classifies a path's eligibility for loading: it must name a regular file
/// and its base name must end in `.yaml` with a non-empty stem. Whether the
/// path names a regular file is a fact about the filesystem and is handed in
/// by the caller.
pub fn is_yaml(path: &str, is_file: bool) -> (r: bool)
    ensures
        r == eligible(path@, is_file),
{
    if !is_file {
        return false;
    }
    has_yaml_name(path)
}

/// Recognizes the sentinel stop marker: a path whose name ends with the
/// reserved token `stop`.
pub fn is_stop_marker(path: &str) -> (r: bool)
    ensures
        r == is_stop_path(path@),
{
    let n: usize = path.unicode_len();
    if n < 4 {
        return false;
    }
    path.get_char(n - 4) == 's' && path.get_char(n - 3) == 't' && path.get_char(n - 2) == 'o'
        && path.get_char(n - 1) == 'p'
}

} // verus!
