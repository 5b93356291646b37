//! Path predicates over the UTF-8 bytes of a path string: the extension
//! filter and the exclusion-suffix rule used by file discovery.
use vstd::prelude::*;
use vstd::string::StringSliceAdditionalSpecFns;

verus! {

pub const SLASH: u8 = 47;
pub const DOT: u8 = 46;

/// The suffix of `p` after the last occurrence of `sep`; all of `p` when
/// `sep` does not occur.
pub open spec fn suffix_after_last(p: Seq<u8>, sep: u8) -> Seq<u8>
    decreases p.len(),
{
    if p.len() == 0 {
        p
    } else if p.last() == sep {
        Seq::empty()
    } else {
        suffix_after_last(p.drop_last(), sep).push(p.last())
    }
}

/// Relates `suffix_after_last` to an index found by scanning: if nothing
/// at or after `k` is the separator and `k` is the start or preceded by
/// the separator, the suffix is exactly `p[k..]`.
pub proof fn lemma_suffix_after_last(p: Seq<u8>, sep: u8, k: int)
    requires
        0 <= k <= p.len(),
        forall|j: int| k <= j < p.len() ==> p[j] != sep,
        k == 0 || p[k - 1] == sep,
    ensures
        suffix_after_last(p, sep) == p.subrange(k, p.len() as int),
    decreases p.len(),
{
    if k == p.len() {
        if k == 0 {
            assert(p.subrange(0, 0) =~= p);
        } else {
            assert(p.last() == sep);
            assert(suffix_after_last(p, sep) =~= p.subrange(k, p.len() as int));
        }
    } else {
        assert(p.last() != sep);
        lemma_suffix_after_last(p.drop_last(), sep, k);
        assert(p.drop_last().subrange(k, p.len() - 1).push(p.last()) =~= p.subrange(
            k,
            p.len() as int,
        ));
    }
}

/// The file name of a path: what follows the last slash.
pub open spec fn file_name_of(p: Seq<u8>) -> Seq<u8> {
    suffix_after_last(p, SLASH)
}

/// A path has extension `ext` when its file name holds a dot past its
/// first byte and what follows the last such dot is exactly `ext`.
pub open spec fn has_ext_spec(p: Seq<u8>, ext: Seq<u8>) -> bool {
    let file = file_name_of(p);
    &&& exists|i: int| 1 <= i < file.len() && file[i] == DOT
    &&& suffix_after_last(file, DOT) == ext
}

/// A path matches an exclusion suffix when the suffix ends the path at a
/// component boundary: the byte before the match, if any, is a slash.
pub open spec fn is_excluded_spec(p: Seq<u8>, excl: Seq<u8>) -> bool {
    &&& excl.len() <= p.len()
    &&& p.subrange(p.len() - excl.len(), p.len() as int) == excl
    &&& (p.len() == excl.len() || p[p.len() - excl.len() - 1] == SLASH)
}

/// Things with a file extension that can be inspected.
pub trait HasExtension {
    /// The UTF-8 bytes of the path this value stands for.
    spec fn path_bytes(&self) -> Seq<u8>;

    /// True exactly when the path's file name has extension `extension`.
    fn has_extension(&self, extension: &str) -> (r: bool)
        ensures
            r == has_ext_spec(self.path_bytes(), extension.spec_bytes()),
    ;
}

/// The last index of `b` in `s`, scanning from the end.
fn rfind_byte(s: &[u8], b: u8) -> (r: Option<usize>)
    ensures
        r matches Some(k) ==> k < s@.len() && s@[k as int] == b && forall|j: int|
            k < j < s@.len() ==> s@[j] != b,
        r is None ==> forall|j: int| 0 <= j < s@.len() ==> s@[j] != b,
{
    let mut i: usize = s.len();
    while i > 0
        invariant
            0 <= i <= s@.len(),
            forall|j: int| i <= j < s@.len() ==> s@[j] != b,
        decreases i,
    {
        i = i - 1;
        if s[i] == b {
            return Some(i);
        }
    }
    None
}

/// Byte-for-byte equality of two slices.
pub(crate) fn bytes_eq(a: &[u8], b: &[u8]) -> (r: bool)
    ensures
        r == (a@ == b@),
{
    if a.len() != b.len() {
        proof {
            assert(a@.len() != b@.len());
        }
        return false;
    }
    let mut i: usize = 0;
    while i < a.len()
        invariant
            0 <= i <= a@.len(),
            a@.len() == b@.len(),
            forall|j: int| 0 <= j < i ==> a@[j] == b@[j],
        decreases a@.len() - i,
    {
        if a[i] != b[i] {
            return false;
        }
        i = i + 1;
    }
    proof {
        assert(a@ =~= b@);
    }
    true
}

impl HasExtension for String {
    open spec fn path_bytes(&self) -> Seq<u8> {
        vstd::utf8::encode_utf8(self@)
    }

    fn has_extension(&self, extension: &str) -> (r: bool) {
        let p: &[u8] = self.as_str().as_bytes();
        proof {
            assert(p@ == self.path_bytes());
        }
        let ext: &[u8] = extension.as_bytes();
        proof {
            assert(ext@ == extension.spec_bytes());
        }
        let n = p.len();
        let start: usize = match rfind_byte(p, SLASH) {
            Some(k) => k + 1,
            None => 0,
        };
        let file: &[u8] = vstd::slice::slice_subrange(p, start, n);
        proof {
            lemma_suffix_after_last(p@, SLASH, start as int);
            assert(file@ == file_name_of(self.path_bytes()));
        }
        match rfind_byte(file, DOT) {
            Some(d) => {
                if d == 0 {
                    proof {
                        assert(forall|i: int| 1 <= i < file@.len() ==> file@[i] != DOT);
                        assert(!has_ext_spec(self.path_bytes(), extension.spec_bytes()));
                    }
                    false
                } else {
                    let m = file.len();
                    let tail: &[u8] = vstd::slice::slice_subrange(file, d + 1, m);
                    proof {
                        lemma_suffix_after_last(file@, DOT, d + 1);
                        assert(1 <= d < file@.len() && file@[d as int] == DOT);
                        assert(suffix_after_last(file@, DOT) == tail@);
                    }
                    bytes_eq(tail, ext)
                }
            },
            None => {
                proof {
                    assert(!has_ext_spec(self.path_bytes(), extension.spec_bytes()));
                }
                false
            },
        }
    }
}

} // verus!
