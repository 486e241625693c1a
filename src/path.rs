use vstd::prelude::*;

verus! {

/// A file path, as the bytes the operating system gives it: any name,
/// UTF-8 or not.
pub type PathBytes = Vec<u8>;

/// The byte strings of a sequence of paths.
pub open spec fn paths(v: Seq<PathBytes>) -> Seq<Seq<u8>> {
    v.map_values(|p: PathBytes| p@)
}

/// A copy of the path `p`.
pub fn copy_path(p: &PathBytes) -> (r: PathBytes)
    ensures
        r@ == p@,
{
    let mut r: PathBytes = Vec::new();
    let mut i: usize = 0;
    while i < p.len()
        invariant
            0 <= i <= p@.len(),
            r@ == p@.subrange(0, i as int),
        decreases p@.len() - i,
    {
        r.push(p[i]);
        proof {
            assert(r@ =~= p@.subrange(0, i + 1));
        }
        i = i + 1;
    }
    proof {
        assert(p@.subrange(0, p@.len() as int) =~= p@);
    }
    r
}

/// Whether two paths are the same bytes.
pub fn same_path(a: &PathBytes, b: &PathBytes) -> (r: bool)
    ensures
        r == (a@ == b@),
{
    if a.len() != b.len() {
        return false;
    }
    let mut i: usize = 0;
    while i < a.len()
        invariant
            0 <= i <= a@.len(),
            a@.len() == b@.len(),
            forall|j: int| 0 <= j < i ==> a@[j] == b@[j],
        decreases a@.len() - i,
    {
        if a[i] != b[i] {
            return false;
        }
        i = i + 1;
    }
    proof {
        assert(a@ =~= b@);
    }
    true
}

} // verus!
