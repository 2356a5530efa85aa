use vstd::prelude::*;

verus! {

/// Whether `base` is a leading run of whole components of `path`, as the
/// standard library's path type compares them.
pub uninterp spec fn path_starts_with(path: Seq<char>, base: Seq<char>) -> bool;

/// Relies on `std::path::Path::starts_with`: the answer depends on the two
/// paths alone, and a path starts with itself.
#[verifier::external_body]
pub(crate) fn starts_with_path(path: &String, base: &String) -> (r: bool)
    ensures
        r == path_starts_with(path@, base@),
        path@ == base@ ==> r,
{
    std::path::Path::new(path.as_str()).starts_with(base.as_str())
}

/// Whether one of the two paths lies inside the other, or they are the same.
pub open spec fn paths_nested(a: Seq<char>, b: Seq<char>) -> bool {
    path_starts_with(a, b) || path_starts_with(b, a)
}

/// Whether `destination` may receive the copy of all of `sources`: it is
/// neither one of them nor an ancestor or descendant of one.
pub open spec fn destination_valid(destination: Seq<char>, sources: Seq<Seq<char>>) -> bool {
    forall|i: int| 0 <= i < sources.len() ==> !paths_nested(destination, #[trigger] sources[i])
}

/// Checks a destination against a job's sources.
pub fn is_valid_destination(destination: &String, sources: &Vec<String>) -> (r: bool)
    ensures
        r == destination_valid(destination@, sources@.map_values(|s: String| s@)),
        (exists|i: int| 0 <= i < sources@.len() && (#[trigger] sources@[i])@ == destination@) ==> !r,
{
    let ghost view = sources@.map_values(|s: String| s@);
    let mut i: usize = 0;
    while i < sources.len()
        invariant
            i <= sources.len(),
            view == sources@.map_values(|s: String| s@),
            forall|k: int| 0 <= k < i ==> !paths_nested(destination@, #[trigger] view[k]),
            forall|k: int| 0 <= k < i ==> (#[trigger] sources@[k])@ != destination@,
        decreases sources.len() - i,
    {
        if starts_with_path(destination, &sources[i]) || starts_with_path(&sources[i], destination) {
            assert(paths_nested(destination@, view[i as int]));
            return false;
        }
        i += 1;
    }
    true
}

} // verus!
