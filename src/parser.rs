use vstd::prelude::*;

verus! {

/// The per-package record of a closure diff, as the diff tool reports it.
#[derive(Debug)]
pub struct DiffPackage {
    pub size_delta: i64,
    pub versions_before: Vec<String>,
    pub versions_after: Vec<String>,
}

/// A whole closure diff: one record per package name, and the format's
/// schema tag, which nothing here reads.
#[derive(Debug)]
pub struct DiffRoot {
    pub packages: Vec<(String, DiffPackage)>,
    pub schema: String,
}

/// The strings of a list of `String`s.
pub open spec fn strings_view(v: Seq<String>) -> Seq<Seq<char>> {
    v.map_values(|s: String| s@)
}

/// The placeholder that stands for an empty version string.
pub open spec fn none_placeholder() -> Seq<char> {
    seq!['<', 'n', 'o', 'n', 'e', '>']
}

pub open spec fn normalized(s: Seq<char>) -> Seq<char> {
    if s.len() == 0 {
        none_placeholder()
    } else {
        s
    }
}

/// Replaces each empty version string by the placeholder, so that an empty
/// version stays distinguishable from an absent one.
pub fn normalize_versions(raw: Vec<String>) -> (r: Vec<String>)
    ensures
        r@.len() == raw@.len(),
        forall|i: int| 0 <= i < raw@.len() ==> #[trigger] r@[i]@ == normalized(raw@[i]@),
{
    let mut out: Vec<String> = Vec::new();
    let mut i: usize = 0;
    while i < raw.len()
        invariant
            i <= raw@.len(),
            out@.len() == i,
            forall|k: int| 0 <= k < i ==> #[trigger] out@[k]@ == normalized(raw@[k]@),
        decreases raw.len() - i,
    {
        if raw[i].as_str().is_empty() {
            proof {
                reveal_strlit("<none>");
            }
            out.push(String::from_str("<none>"));
        } else {
            out.push(raw[i].clone());
        }
        i = i + 1;
    }
    out
}

} // verus!
