use vstd::prelude::*;

verus! {

/// Builds the local archive file name for a package:
/// `{full_name}-{version_number}.zip`.
pub fn archive_file_name(full_name: &str, version_number: &str) -> (r: String)
    ensures
        r@ == full_name@ + seq!['-'] + version_number@ + seq!['.', 'z', 'i', 'p'],
{
    let mut out = full_name.to_owned();
    out.append("-");
    out.append(version_number);
    out.append(".zip");
    proof {
        reveal_strlit("-");
        reveal_strlit(".zip");
        assert(out@ =~= full_name@ + seq!['-'] + version_number@ + seq!['.', 'z', 'i', 'p']);
    }
    out
}

/// Picks the registry's base URL: the named subdomain's API where one is
/// given, the main host's API otherwise.
pub fn base_url(subdomain: Option<&str>) -> (r: String)
    ensures
        match subdomain {
            Some(s) => r@ == "https://"@ + s@ + ".thunderstore.io/api"@,
            None => r@ == "https://thunderstore.io/api"@,
        },
{
    match subdomain {
        Some(s) => {
            let mut out = "https://".to_owned();
            out.append(s);
            out.append(".thunderstore.io/api");
            proof {
                assert(out@ =~= "https://"@ + s@ + ".thunderstore.io/api"@);
            }
            out
        },
        None => "https://thunderstore.io/api".to_owned(),
    }
}

/// Builds the metadata lookup URL:
/// `{base}/experimental/package/{author}/{name}/`.
pub fn metadata_url(base: &str, author: &str, name: &str) -> (r: String)
    ensures
        r@ == base@ + "/experimental/package/"@ + author@ + seq!['/'] + name@ + seq!['/'],
{
    let mut out = base.to_owned();
    out.append("/experimental/package/");
    out.append(author);
    out.append("/");
    out.append(name);
    out.append("/");
    proof {
        reveal_strlit("/");
        assert(out@ =~= base@ + "/experimental/package/"@ + author@ + seq!['/'] + name@ + seq![
            '/',
        ]);
    }
    out
}

/// Builds the upload URL: `{base}/experimental/package/upload/`.
pub fn upload_url(base: &str) -> (r: String)
    ensures
        r@ == base@ + "/experimental/package/upload/"@,
{
    let mut out = base.to_owned();
    out.append("/experimental/package/upload/");
    proof {
        assert(out@ =~= base@ + "/experimental/package/upload/"@);
    }
    out
}

/// What to do with a metadata response.
#[derive(PartialEq, Eq, Structural, Debug)]
pub enum MetadataStep {
    /// The body of a 200 response is the package's metadata and is parsed.
    ParseBody,
    /// Any other status means the package was not found; the body is
    /// discarded unread.
    NotFound,
}

/// Decides what a metadata response's status means: only a 200 carries
/// metadata; every other status is "package not found", and the body is not
/// parsed at all.
pub fn classify_metadata_status(status: u16) -> (r: MetadataStep)
    ensures
        r == (if status == 200 {
            MetadataStep::ParseBody
        } else {
            MetadataStep::NotFound
        }),
{
    if status == 200 {
        MetadataStep::ParseBody
    } else {
        MetadataStep::NotFound
    }
}

/// Decides what an upload response means: a 200 hands its body on as the
/// registry's answer, any other status surfaces the body verbatim as the
/// rejection detail.
pub fn upload_outcome(status: u16, body: String) -> (r: Result<String, String>)
    ensures
        status == 200 ==> r == Ok::<String, String>(body),
        status != 200 ==> r == Err::<String, String>(body),
{
    if status == 200 {
        Ok(body)
    } else {
        Err(body)
    }
}

} // verus!
