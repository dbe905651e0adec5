use vstd::prelude::*;

verus! {

/// The byte value of `/`, the path component separator.
pub const SLASH: u8 = 47;

/// The byte value of `.`, the extension separator.
pub const DOT: u8 = 46;

/// The views of a list of byte strings.
pub open spec fn byte_views(v: Seq<Vec<u8>>) -> Seq<Seq<u8>> {
    v.map_values(|b: Vec<u8>| b@)
}

/// The extension-filter rule, in order: if the exclude set is non-empty and
/// contains the extension, reject; otherwise accept if the wanted set is
/// empty or contains the extension. Comparison is an exact, case-sensitive
/// byte match; a file without an extension carries the empty string.
pub open spec fn passes(ext: Seq<u8>, wanted: Seq<Seq<u8>>, exclude: Seq<Seq<u8>>) -> bool {
    &&& !(exclude.len() > 0 && exclude.contains(ext))
    &&& (wanted.len() == 0 || wanted.contains(ext))
}

/// Index of the last occurrence of byte `b` in `p`, or `-1` if absent.
pub open spec fn last_index(p: Seq<u8>, b: u8) -> int
    decreases p.len(),
{
    if p.len() == 0 {
        -1
    } else if p[p.len() - 1] == b {
        p.len() - 1
    } else {
        last_index(p.drop_last(), b)
    }
}

/// What [`last_index`] finds: a position of `b` with none later, or `-1`
/// when `b` does not occur at all.
pub proof fn lemma_last_index(p: Seq<u8>, b: u8)
    ensures
        -1 <= last_index(p, b) < p.len(),
        last_index(p, b) >= 0 ==> p[last_index(p, b)] == b,
        forall|j: int| last_index(p, b) < j < p.len() ==> p[j] != b,
    decreases p.len(),
{
    if p.len() > 0 && p[p.len() - 1] != b {
        lemma_last_index(p.drop_last(), b);
        assert(forall|j: int| 0 <= j < p.len() - 1 ==> p.drop_last()[j] == p[j]);
    }
}

/// The file-name part of a path: everything after the last `/`, or the
/// whole path if it has no `/`.
pub open spec fn file_name_of(p: Seq<u8>) -> Seq<u8> {
    p.subrange(last_index(p, SLASH) + 1, p.len() as int)
}

/// The extension of a path, as the scan filters on it: the part of the file
/// name after its last `.`, and empty when the file name has no `.` or when
/// its only `.` is the leading one of a hidden file.
pub open spec fn extension_spec(p: Seq<u8>) -> Seq<u8> {
    let name = file_name_of(p);
    let d = last_index(name, DOT);
    if d <= 0 {
        Seq::empty()
    } else {
        name.subrange(d + 1, name.len() as int)
    }
}

/// Byte-string equality.
fn eq_bytes(a: &Vec<u8>, b: &Vec<u8>) -> (r: bool)
    ensures
        r == (a@ == b@),
{
    if a.len() != b.len() {
        return false;
    }
    let mut i: usize = 0;
    while i < a.len()
        invariant
            i <= a.len(),
            a.len() == b.len(),
            forall|j: int| 0 <= j < i ==> a@[j] == b@[j],
        decreases a.len() - i,
    {
        if a[i] != b[i] {
            return false;
        }
        i += 1;
    }
    proof {
        assert(a@ =~= b@);
    }
    true
}

/// Whether `list` contains a byte string equal to `x`.
fn contains_bytes(list: &Vec<Vec<u8>>, x: &Vec<u8>) -> (r: bool)
    ensures
        r == byte_views(list@).contains(x@),
{
    let mut i: usize = 0;
    while i < list.len()
        invariant
            i <= list.len(),
            forall|j: int| 0 <= j < i ==> byte_views(list@)[j] != x@,
        decreases list.len() - i,
    {
        if eq_bytes(&list[i], x) {
            proof {
                assert(byte_views(list@)[i as int] == x@);
            }
            return true;
        }
        i += 1;
    }
    false
}

/// Whether a file with extension `ext` passes the wanted/exclude filter.
pub fn filter_extension(ext: &Vec<u8>, wanted_exts: &Vec<Vec<u8>>, exclude_exts: &Vec<Vec<u8>>) -> (r: bool)
    ensures
        r == passes(ext@, byte_views(wanted_exts@), byte_views(exclude_exts@)),
{
    if exclude_exts.len() > 0 && contains_bytes(exclude_exts, ext) {
        return false;
    }
    wanted_exts.len() == 0 || contains_bytes(wanted_exts, ext)
}

/// A copy of `p[start..end]`.
pub fn subrange_vec(p: &Vec<u8>, start: usize, end: usize) -> (r: Vec<u8>)
    requires
        start <= end <= p.len(),
    ensures
        r@ == p@.subrange(start as int, end as int),
{
    let mut r: Vec<u8> = Vec::new();
    let mut i: usize = start;
    while i < end
        invariant
            start <= i <= end <= p.len(),
            r@ == p@.subrange(start as int, i as int),
        decreases end - i,
    {
        r.push(p[i]);
        proof {
            assert(p@.subrange(start as int, i as int).push(p@[i as int]) =~= p@.subrange(
                start as int,
                i + 1,
            ));
        }
        i += 1;
    }
    r
}

/// A copy of the whole byte string.
pub fn copy_bytes(p: &Vec<u8>) -> (r: Vec<u8>)
    ensures
        r@ == p@,
{
    let r = subrange_vec(p, 0, p.len());
    proof {
        assert(p@.subrange(0, p.len() as int) =~= p@);
    }
    r
}

/// Index of the last occurrence of `b` in `p`, if any.
fn rlast_index(p: &Vec<u8>, b: u8) -> (r: Option<usize>)
    ensures
        match r {
            Some(i) => i == last_index(p@, b) && i < p@.len(),
            None => last_index(p@, b) == -1,
        },
{
    let mut i: usize = p.len();
    while i > 0
        invariant
            i <= p.len(),
            forall|j: int| i <= j < p.len() ==> p@[j] != b,
        decreases i,
    {
        i -= 1;
        if p[i] == b {
            proof {
                lemma_last_index(p@, b);
                let li = last_index(p@, b);
                assert(li >= 0) by {
                    if li < i as int {
                        assert(p@[i as int] != b);
                    }
                }
                assert(li == i as int) by {
                    if li > i as int {
                        assert(p@[li] != b);
                    }
                    if li < i as int {
                        assert(p@[i as int] != b);
                    }
                }
            }
            return Some(i);
        }
    }
    proof {
        lemma_last_index(p@, b);
        let li = last_index(p@, b);
        if li >= 0 {
            assert(p@[li] != b);
        }
    }
    None
}

/// The extension of `path`, as [`extension_spec`] defines it.
pub fn extension_of(path: &Vec<u8>) -> (ext: Vec<u8>)
    ensures
        ext@ == extension_spec(path@),
{
    let n = path.len();
    let name_start: usize = match rlast_index(path, SLASH) {
        Some(i) => i + 1,
        None => 0,
    };
    let name = subrange_vec(path, name_start, n);
    proof {
        assert(name@ == file_name_of(path@));
    }
    match rlast_index(&name, DOT) {
        Some(d) => {
            if d > 0 {
                subrange_vec(&name, d + 1, name.len())
            } else {
                proof {
                    assert(Seq::<u8>::empty() =~= extension_spec(path@));
                }
                Vec::new()
            }
        },
        None => {
            proof {
                assert(Seq::<u8>::empty() =~= extension_spec(path@));
            }
            Vec::new()
        },
    }
}

} // verus!
