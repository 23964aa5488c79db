use vstd::prelude::*;

verus! {

/// One community listing attached to a package, as the registry reports it.
#[derive(Debug)]
pub struct CommunityListing {
    pub has_nsfw_content: bool,
    pub categories: Vec<String>,
    pub community: String,
}

/// The "latest" version embedded in a package's metadata: its version string,
/// its dependency references, and where its archive can be downloaded.
#[derive(Debug)]
pub struct PackageVersion {
    pub namespace: String,
    pub name: String,
    pub version_number: String,
    pub full_name: String,
    pub description: String,
    pub icon: String,
    pub dependencies: Vec<String>,
    pub download_url: String,
    pub downloads: usize,
    pub date_created: String,
    pub website_url: String,
    pub is_active: bool,
}

/// A package's metadata as the registry returns it: identity, bookkeeping
/// fields, the latest version, and the communities it is listed in.
#[derive(Debug)]
pub struct PackageInfo {
    pub namespace: String,
    pub name: String,
    pub full_name: String,
    pub owner: String,
    pub package_url: String,
    pub date_created: String,
    pub date_updated: String,
    pub rating_score: usize,
    pub is_pinned: bool,
    pub is_deprecated: bool,
    pub total_downloads: usize,
    pub latest: PackageVersion,
    pub community_listings: Vec<CommunityListing>,
}

/// Mathematical model of a community listing.
#[verifier::ext_equal]
pub struct ListingView {
    pub has_nsfw_content: bool,
    pub categories: Seq<Seq<char>>,
    pub community: Seq<char>,
}

/// Mathematical model of a package version.
#[verifier::ext_equal]
pub struct VersionView {
    pub namespace: Seq<char>,
    pub name: Seq<char>,
    pub version_number: Seq<char>,
    pub full_name: Seq<char>,
    pub description: Seq<char>,
    pub icon: Seq<char>,
    pub dependencies: Seq<Seq<char>>,
    pub download_url: Seq<char>,
    pub downloads: usize,
    pub date_created: Seq<char>,
    pub website_url: Seq<char>,
    pub is_active: bool,
}

/// Mathematical model of a package's metadata.
#[verifier::ext_equal]
pub struct InfoView {
    pub namespace: Seq<char>,
    pub name: Seq<char>,
    pub full_name: Seq<char>,
    pub owner: Seq<char>,
    pub package_url: Seq<char>,
    pub date_created: Seq<char>,
    pub date_updated: Seq<char>,
    pub rating_score: usize,
    pub is_pinned: bool,
    pub is_deprecated: bool,
    pub total_downloads: usize,
    pub latest: VersionView,
    pub community_listings: Seq<ListingView>,
}

impl View for CommunityListing {
    type V = ListingView;

    open spec fn view(&self) -> ListingView {
        ListingView {
            has_nsfw_content: self.has_nsfw_content,
            categories: self.categories@.map_values(|s: String| s@),
            community: self.community@,
        }
    }
}

impl View for PackageVersion {
    type V = VersionView;

    open spec fn view(&self) -> VersionView {
        VersionView {
            namespace: self.namespace@,
            name: self.name@,
            version_number: self.version_number@,
            full_name: self.full_name@,
            description: self.description@,
            icon: self.icon@,
            dependencies: self.dependencies@.map_values(|s: String| s@),
            download_url: self.download_url@,
            downloads: self.downloads,
            date_created: self.date_created@,
            website_url: self.website_url@,
            is_active: self.is_active,
        }
    }
}

impl View for PackageInfo {
    type V = InfoView;

    open spec fn view(&self) -> InfoView {
        InfoView {
            namespace: self.namespace@,
            name: self.name@,
            full_name: self.full_name@,
            owner: self.owner@,
            package_url: self.package_url@,
            date_created: self.date_created@,
            date_updated: self.date_updated@,
            rating_score: self.rating_score,
            is_pinned: self.is_pinned,
            is_deprecated: self.is_deprecated,
            total_downloads: self.total_downloads,
            latest: self.latest@,
            community_listings: self.community_listings@.map_values(|l: CommunityListing| l@),
        }
    }
}

/// The views of a sequence of strings.
pub open spec fn str_views(v: Seq<String>) -> Seq<Seq<char>> {
    v.map_values(|s: String| s@)
}

/// The views of a sequence of package entries.
pub open spec fn info_views(v: Seq<PackageInfo>) -> Seq<InfoView> {
    v.map_values(|p: PackageInfo| p@)
}

impl InfoView {
    /// The dependency-graph key of a package: its full name.
    pub open spec fn key(self) -> Seq<char> {
        self.full_name
    }

    /// The dependency references of the package's latest version.
    pub open spec fn dep_refs(self) -> Seq<Seq<char>> {
        self.latest.dependencies
    }
}

fn clone_strings(v: &Vec<String>) -> (r: Vec<String>)
    ensures
        r@ == v@,
{
    let mut r: Vec<String> = Vec::new();
    let mut i: usize = 0;
    while i < v.len()
        invariant
            i <= v@.len(),
            r@ == v@.subrange(0, i as int),
        decreases v@.len() - i,
    {
        r.push(v[i].clone());
        i = i + 1;
        proof {
            assert(r@ =~= v@.subrange(0, i as int));
        }
    }
    proof {
        assert(r@ =~= v@);
    }
    r
}

impl Clone for CommunityListing {
    fn clone(&self) -> (r: Self)
        ensures
            r@ == self@,
    {
        CommunityListing {
            has_nsfw_content: self.has_nsfw_content,
            categories: clone_strings(&self.categories),
            community: self.community.clone(),
        }
    }
}

fn clone_listings(v: &Vec<CommunityListing>) -> (r: Vec<CommunityListing>)
    ensures
        r@.map_values(|l: CommunityListing| l@) == v@.map_values(|l: CommunityListing| l@),
{
    let mut r: Vec<CommunityListing> = Vec::new();
    let mut i: usize = 0;
    while i < v.len()
        invariant
            i <= v@.len(),
            r@.len() == i,
            forall|j: int| 0 <= j < i ==> r@[j]@ == v@[j]@,
        decreases v@.len() - i,
    {
        r.push(v[i].clone());
        i = i + 1;
    }
    proof {
        assert(r@.map_values(|l: CommunityListing| l@) =~= v@.map_values(
            |l: CommunityListing| l@,
        ));
    }
    r
}

impl Clone for PackageVersion {
    fn clone(&self) -> (r: Self)
        ensures
            r@ == self@,
    {
        let r = PackageVersion {
            namespace: self.namespace.clone(),
            name: self.name.clone(),
            version_number: self.version_number.clone(),
            full_name: self.full_name.clone(),
            description: self.description.clone(),
            icon: self.icon.clone(),
            dependencies: clone_strings(&self.dependencies),
            download_url: self.download_url.clone(),
            downloads: self.downloads,
            date_created: self.date_created.clone(),
            website_url: self.website_url.clone(),
            is_active: self.is_active,
        };
        proof {
            assert(r@ =~= self@);
        }
        r
    }
}

impl Clone for PackageInfo {
    fn clone(&self) -> (r: Self)
        ensures
            r@ == self@,
    {
        let r = PackageInfo {
            namespace: self.namespace.clone(),
            name: self.name.clone(),
            full_name: self.full_name.clone(),
            owner: self.owner.clone(),
            package_url: self.package_url.clone(),
            date_created: self.date_created.clone(),
            date_updated: self.date_updated.clone(),
            rating_score: self.rating_score,
            is_pinned: self.is_pinned,
            is_deprecated: self.is_deprecated,
            total_downloads: self.total_downloads,
            latest: self.latest.clone(),
            community_listings: clone_listings(&self.community_listings),
        };
        proof {
            assert(r@ =~= self@);
        }
        r
    }
}

} // verus!
