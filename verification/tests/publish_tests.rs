use tstore::publish::CliPublishArgs;
use tstore::publish::ConfigPublishValues;
use tstore::publish::MissingField;
use tstore::publish::PublishOptions;

fn no_cli() -> CliPublishArgs {
    CliPublishArgs {
        author: None,
        categories: None,
        communities: None,
        nsfw: false,
        zip: None,
        token: None,
    }
}

fn full_cli() -> CliPublishArgs {
    CliPublishArgs {
        author: Some("CmdAuthor".to_string()),
        categories: Some(vec!["cli-cat".to_string()]),
        communities: Some(vec!["riskofrain2".to_string()]),
        nsfw: false,
        zip: Some("cli.zip".to_string()),
        token: Some("example-token".to_string()),
    }
}

fn file_config() -> ConfigPublishValues {
    ConfigPublishValues {
        author: Some("FileAuthor".to_string()),
        categories: Some(vec!["file-cat".to_string()]),
        communities: Some(vec!["valheim".to_string()]),
        nsfw: None,
        zip: Some("file.zip".to_string()),
        token: Some("example-token".to_string()),
    }
}

#[test]
fn command_line_author_wins_over_config() {
    let o = PublishOptions::resolve_options(full_cli(), Some(file_config()), true).unwrap();
    assert_eq!(o.author_name, "CmdAuthor");
    assert_eq!(o.categories, vec!["cli-cat".to_string()]);
    assert_eq!(o.communities, vec!["riskofrain2".to_string()]);
    assert_eq!(o.zip, "cli.zip");
}

#[test]
fn config_author_fills_in_when_command_line_has_none() {
    let mut cli = full_cli();
    cli.author = None;
    let o = PublishOptions::resolve_options(cli, Some(file_config()), true).unwrap();
    assert_eq!(o.author_name, "FileAuthor");
}

#[test]
fn missing_author_everywhere_is_an_error() {
    let mut cli = full_cli();
    cli.author = None;
    let mut config = file_config();
    config.author = None;
    let r = PublishOptions::resolve_options(cli, Some(config), true);
    assert_eq!(r.unwrap_err(), MissingField::Author);
}

#[test]
fn nsfw_comes_from_config_when_flag_absent() {
    let mut config = file_config();
    config.nsfw = Some(true);
    let o = PublishOptions::resolve_options(no_cli(), Some(config), true);
    // The other required fields come from the config file here.
    assert!(o.as_ref().unwrap().nsfw);
}

#[test]
fn nsfw_defaults_to_false_when_both_absent() {
    let o = PublishOptions::resolve_options(full_cli(), None, false).unwrap();
    assert!(!o.nsfw);
}

#[test]
fn nsfw_flag_wins_over_config_false() {
    let mut cli = full_cli();
    cli.nsfw = true;
    let mut config = file_config();
    config.nsfw = Some(false);
    let o = PublishOptions::resolve_options(cli, Some(config), true).unwrap();
    assert!(o.nsfw);
}

#[test]
fn categories_default_to_empty_without_error() {
    let mut cli = full_cli();
    cli.categories = None;
    let o = PublishOptions::resolve_options(cli, None, false).unwrap();
    assert!(o.categories.is_empty());
}

#[test]
fn missing_communities_is_an_error() {
    let mut cli = full_cli();
    cli.communities = None;
    let r = PublishOptions::resolve_options(cli, None, false);
    assert_eq!(r.unwrap_err(), MissingField::Communities);
}

#[test]
fn config_zip_only_counts_when_the_file_exists() {
    let mut cli = full_cli();
    cli.zip = None;
    let o = PublishOptions::resolve_options(cli, Some(file_config()), true).unwrap();
    assert_eq!(o.zip, "file.zip");

    let mut cli2 = full_cli();
    cli2.zip = None;
    let r = PublishOptions::resolve_options(cli2, Some(file_config()), false);
    assert_eq!(r.unwrap_err(), MissingField::Zip);
}

#[test]
fn missing_token_is_an_error() {
    let mut cli = full_cli();
    cli.token = None;
    let mut config = file_config();
    config.token = None;
    let r = PublishOptions::resolve_options(cli, Some(config), true);
    assert_eq!(r.unwrap_err(), MissingField::Token);
}

#[test]
fn missing_field_messages_point_at_help() {
    assert!(MissingField::Author.message().contains("author name"));
    assert!(MissingField::Communities.message().contains("communities"));
    assert!(MissingField::Zip.message().contains("ZIP file"));
    assert!(MissingField::Token.message().contains("service account token"));
}

#[test]
fn metadata_json_matches_upload_shape() {
    let o = PublishOptions {
        author_name: "A".to_string(),
        categories: vec!["c1".to_string(), "c2".to_string()],
        communities: vec!["riskofrain2".to_string()],
        nsfw: true,
        zip: "pkg.zip".to_string(),
        token: "example-token".to_string(),
    };
    assert_eq!(
        o.metadata_json_text(),
        "{\"author_name\":\"A\",\"categories\":[\"c1\",\"c2\"],\
         \"communities\":[\"riskofrain2\"],\"has_nsfw_content\":true}"
    );
}

#[test]
fn metadata_json_escapes_special_characters() {
    let o = PublishOptions {
        author_name: "a\"b\\c\nd".to_string(),
        categories: vec![],
        communities: vec![],
        nsfw: false,
        zip: "pkg.zip".to_string(),
        token: "example-token".to_string(),
    };
    assert_eq!(
        o.metadata_json_text(),
        "{\"author_name\":\"a\\\"b\\\\c\\u000ad\",\"categories\":[],\
         \"communities\":[],\"has_nsfw_content\":false}"
    );
}
