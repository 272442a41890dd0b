use vstd::prelude::*;

verus! {

/// One release as the API lists it. Only the tag name is read by this library; the
/// other fields are passed through unchanged.
#[derive(Debug, Clone)]
pub struct GitHubReleaseItem {
    pub url: String,
    pub assets_url: String,
    pub upload_url: String,
    pub html_url: String,
    pub tag_name: String,
    pub name: String,
    pub draft: bool,
    pub prerelease: bool,
    pub created_at: String,
    pub published_at: String,
    pub body: String,
}

/// The tag names of a sequence of releases, in order.
pub open spec fn tags_of(records: Seq<GitHubReleaseItem>) -> Seq<Seq<char>> {
    records.map_values(|r: GitHubReleaseItem| r.tag_name@)
}

/// The tag name of each release, in the order received.
pub fn tag_names(records: &Vec<GitHubReleaseItem>) -> (r: Vec<String>)
    ensures
        r@.len() == records@.len(),
        forall|i: int| 0 <= i < r@.len() ==> #[trigger] r@[i]@ == tags_of(records@)[i],
{
    let mut names: Vec<String> = Vec::new();
    let mut k: usize = 0;
    while k < records.len()
        invariant
            k <= records@.len(),
            names@.len() == k,
            forall|i: int| 0 <= i < k ==> #[trigger] names@[i]@ == tags_of(records@)[i],
        decreases records.len() - k,
    {
        names.push(records[k].tag_name.clone());
        k = k + 1;
    }
    names
}

} // verus!
