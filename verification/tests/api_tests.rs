use tstore::api::archive_file_name;
use tstore::api::classify_metadata_status;
use tstore::api::metadata_url;
use tstore::api::upload_outcome;
use tstore::api::upload_url;
use tstore::api::MetadataStep;

#[test]
fn archive_file_name_is_full_name_dash_version_zip() {
    assert_eq!(archive_file_name("AuthorX-ModY", "1.0.0"), "AuthorX-ModY-1.0.0.zip");
}

#[test]
fn metadata_url_has_author_and_name_segments() {
    assert_eq!(
        metadata_url("https://thunderstore.io/api", "AuthorX", "ModY"),
        "https://thunderstore.io/api/experimental/package/AuthorX/ModY/"
    );
}

#[test]
fn upload_url_points_at_the_upload_endpoint() {
    assert_eq!(
        upload_url("https://thunderstore.io/api"),
        "https://thunderstore.io/api/experimental/package/upload/"
    );
}

#[test]
fn non_200_metadata_status_means_not_found_without_parsing() {
    assert_eq!(classify_metadata_status(404), MetadataStep::NotFound);
    assert_eq!(classify_metadata_status(500), MetadataStep::NotFound);
    assert_eq!(classify_metadata_status(201), MetadataStep::NotFound);
}

#[test]
fn status_200_means_parse_the_body() {
    assert_eq!(classify_metadata_status(200), MetadataStep::ParseBody);
}

#[test]
fn upload_outcome_hands_the_body_on() {
    assert_eq!(upload_outcome(200, "{\"namespace\":\"a\"}".to_string()), Ok("{\"namespace\":\"a\"}".to_string()));
    assert_eq!(upload_outcome(400, "rejected".to_string()), Err("rejected".to_string()));
}

#[test]
fn base_url_uses_the_subdomain_when_given() {
    assert_eq!(tstore::api::base_url(None), "https://thunderstore.io/api");
    assert_eq!(tstore::api::base_url(Some("valheim")), "https://valheim.thunderstore.io/api");
}
