use vstd::prelude::*;

use crate::models::str_views;

verus! {

/// The publish options the command line supplies. Each is optional except the
/// nsfw flag, which is either present or absent.
pub struct CliPublishArgs {
    pub author: Option<String>,
    pub categories: Option<Vec<String>>,
    pub communities: Option<Vec<String>>,
    pub nsfw: bool,
    pub zip: Option<String>,
    pub token: Option<String>,
}

/// The publish options a config file supplies, each optional.
pub struct ConfigPublishValues {
    pub author: Option<String>,
    pub categories: Option<Vec<String>>,
    pub communities: Option<Vec<String>>,
    pub nsfw: Option<bool>,
    pub zip: Option<String>,
    pub token: Option<String>,
}

/// A required publish option that neither source supplied.
#[derive(PartialEq, Eq, Structural, Debug)]
pub enum MissingField {
    Author,
    Communities,
    Zip,
    Token,
}

/// Fully resolved publish options: no field is left unresolved.
#[derive(Debug)]
pub struct PublishOptions {
    pub author_name: String,
    pub categories: Vec<String>,
    pub communities: Vec<String>,
    pub nsfw: bool,
    pub zip: String,
    pub token: String,
}

/// The author the two sources resolve to: the command line wins.
pub open spec fn picked_author(cli: CliPublishArgs, config: Option<ConfigPublishValues>) -> Option<
    String,
> {
    if cli.author is Some {
        cli.author
    } else {
        match config {
            Some(c) => c.author,
            None => None,
        }
    }
}

/// The categories the two sources resolve to, before the empty default.
pub open spec fn picked_categories(
    cli: CliPublishArgs,
    config: Option<ConfigPublishValues>,
) -> Option<Vec<String>> {
    if cli.categories is Some {
        cli.categories
    } else {
        match config {
            Some(c) => c.categories,
            None => None,
        }
    }
}

/// The communities the two sources resolve to: the command line wins.
pub open spec fn picked_communities(
    cli: CliPublishArgs,
    config: Option<ConfigPublishValues>,
) -> Option<Vec<String>> {
    if cli.communities is Some {
        cli.communities
    } else {
        match config {
            Some(c) => c.communities,
            None => None,
        }
    }
}

/// The nsfw flag the two sources resolve to: the OR of the command-line flag
/// and the config value, false when both are absent.
pub open spec fn picked_nsfw(cli: CliPublishArgs, config: Option<ConfigPublishValues>) -> bool {
    cli.nsfw || (match config {
        Some(c) => c.nsfw == Some(true),
        None => false,
    })
}

/// The archive path the two sources resolve to: the command line wins, and
/// the config value only counts when a file exists at that path.
pub open spec fn picked_zip(
    cli: CliPublishArgs,
    config: Option<ConfigPublishValues>,
    config_zip_exists: bool,
) -> Option<String> {
    if cli.zip is Some {
        cli.zip
    } else {
        match config {
            Some(c) => if config_zip_exists {
                c.zip
            } else {
                None
            },
            None => None,
        }
    }
}

/// The token the two sources resolve to: the command line wins.
pub open spec fn picked_token(cli: CliPublishArgs, config: Option<ConfigPublishValues>) -> Option<
    String,
> {
    if cli.token is Some {
        cli.token
    } else {
        match config {
            Some(c) => c.token,
            None => None,
        }
    }
}

impl PublishOptions {
    /// Merges command-line and config-file publish options. A command-line
    /// value always wins; a config value is the fallback. Unresolved
    /// categories default to the empty list; an unresolved author, community
    /// list, archive path or token is an error naming the field.
    /// `config_zip_exists` says whether a file exists at the config file's
    /// archive path.
    pub fn resolve_options(
        cli: CliPublishArgs,
        config: Option<ConfigPublishValues>,
        config_zip_exists: bool,
    ) -> (r: Result<PublishOptions, MissingField>)
        ensures
            r is Ok <==> (picked_author(cli, config) is Some && picked_communities(cli, config)
                is Some && picked_zip(cli, config, config_zip_exists) is Some && picked_token(
                cli,
                config,
            ) is Some),
            r matches Ok(o) ==> {
                &&& o.author_name == picked_author(cli, config)->Some_0
                &&& o.categories@ == (match picked_categories(cli, config) {
                    Some(v) => v@,
                    None => Seq::<String>::empty(),
                })
                &&& o.communities == picked_communities(cli, config)->Some_0
                &&& o.nsfw == picked_nsfw(cli, config)
                &&& o.zip == picked_zip(cli, config, config_zip_exists)->Some_0
                &&& o.token == picked_token(cli, config)->Some_0
            },
            picked_author(cli, config) is None ==> r == Err::<PublishOptions, MissingField>(
                MissingField::Author,
            ),
            picked_author(cli, config) is Some && picked_communities(cli, config) is None ==> r
                == Err::<PublishOptions, MissingField>(MissingField::Communities),
            picked_author(cli, config) is Some && picked_communities(cli, config) is Some
                && picked_zip(cli, config, config_zip_exists) is None ==> r == Err::<
                PublishOptions,
                MissingField,
            >(MissingField::Zip),
            picked_author(cli, config) is Some && picked_communities(cli, config) is Some
                && picked_zip(cli, config, config_zip_exists) is Some && picked_token(cli, config)
                is None ==> r == Err::<PublishOptions, MissingField>(MissingField::Token),
    {
        let (c_author, c_categories, c_communities, c_nsfw, c_zip, c_token) = match config {
            Some(c) => (c.author, c.categories, c.communities, c.nsfw, c.zip, c.token),
            None => (None, None, None, None, None, None),
        };
        let author_name = match cli.author {
            Some(a) => a,
            None => match c_author {
                Some(a) => a,
                None => {
                    return Err(MissingField::Author);
                },
            },
        };
        let communities = match cli.communities {
            Some(v) => v,
            None => match c_communities {
                Some(v) => v,
                None => {
                    return Err(MissingField::Communities);
                },
            },
        };
        let categories = match cli.categories {
            Some(v) => v,
            None => match c_categories {
                Some(v) => v,
                None => Vec::new(),
            },
        };
        let nsfw = cli.nsfw || match c_nsfw {
            Some(b) => b,
            None => false,
        };
        let zip = match cli.zip {
            Some(z) => z,
            None => {
                if config_zip_exists {
                    match c_zip {
                        Some(z) => z,
                        None => {
                            return Err(MissingField::Zip);
                        },
                    }
                } else {
                    return Err(MissingField::Zip);
                }
            },
        };
        let token = match cli.token {
            Some(t) => t,
            None => match c_token {
                Some(t) => t,
                None => {
                    return Err(MissingField::Token);
                },
            },
        };
        Ok(
            PublishOptions {
                author_name: author_name,
                categories: categories,
                communities: communities,
                nsfw: nsfw,
                zip: zip,
                token: token,
            },
        )
    }
}

impl MissingField {
    /// The user-facing message naming the unresolved field and pointing at
    /// the command's help text.
    pub fn message(&self) -> (r: &'static str)
        ensures
            r@ == match *self {
                MissingField::Author => "This command requires an author name to upload under. Check help using tstore-cli publish --help"@,
                MissingField::Communities => "This command requires you to specify one or more communities to upload to. Check help using tstore-cli publish --help"@,
                MissingField::Zip => "This command requires a path to a ZIP file to upload. Check help using tstore-cli publish --help"@,
                MissingField::Token => "This command requires a service account token! Check help using tstore-cli publish --help"@,
            },
    {
        match *self {
            MissingField::Author => "This command requires an author name to upload under. Check help using tstore-cli publish --help",
            MissingField::Communities => "This command requires you to specify one or more communities to upload to. Check help using tstore-cli publish --help",
            MissingField::Zip => "This command requires a path to a ZIP file to upload. Check help using tstore-cli publish --help",
            MissingField::Token => "This command requires a service account token! Check help using tstore-cli publish --help",
        }
    }
}

/// The hexadecimal digit for a value below sixteen.
pub open spec fn hex_digit(n: int) -> char {
    "0123456789abcdef"@[n]
}

/// One character of a JSON string, escaped: a quote or a backslash gets a
/// backslash before it, a control character becomes `\u00` plus two hex
/// digits, and any other character stands as itself.
pub open spec fn json_escape_char(c: char) -> Seq<char> {
    if c == '"' {
        "\\\""@
    } else if c == '\\' {
        "\\\\"@
    } else if (c as u32) < 32 {
        "\\u00"@ + seq![hex_digit((c as u32) as int / 16), hex_digit((c as u32) as int % 16)]
    } else {
        seq![c]
    }
}

/// A character sequence with every character JSON-escaped.
pub open spec fn json_escaped(s: Seq<char>) -> Seq<char>
    decreases s.len(),
{
    if s.len() == 0 {
        Seq::empty()
    } else {
        json_escaped(s.drop_last()) + json_escape_char(s.last())
    }
}

/// A JSON string literal: the escaped characters between quotes.
pub open spec fn json_string(s: Seq<char>) -> Seq<char> {
    seq!['"'] + json_escaped(s) + seq!['"']
}

/// JSON string literals joined by commas.
pub open spec fn json_string_items(v: Seq<Seq<char>>) -> Seq<char>
    decreases v.len(),
{
    if v.len() == 0 {
        Seq::empty()
    } else if v.len() == 1 {
        json_string(v[0])
    } else {
        json_string_items(v.drop_last()) + seq![','] + json_string(v.last())
    }
}

/// A JSON array of string literals.
pub open spec fn json_string_array(v: Seq<Seq<char>>) -> Seq<char> {
    seq!['['] + json_string_items(v) + seq![']']
}

/// The JSON body of the upload's metadata part.
pub open spec fn metadata_json(
    author: Seq<char>,
    categories: Seq<Seq<char>>,
    communities: Seq<Seq<char>>,
    nsfw: bool,
) -> Seq<char> {
    "{\"author_name\":"@ + json_string(author) + ",\"categories\":"@ + json_string_array(
        categories,
    ) + ",\"communities\":"@ + json_string_array(communities) + ",\"has_nsfw_content\":"@ + (
    if nsfw {
        "true"@
    } else {
        "false"@
    }) + "}"@
}

fn append_json_escaped(out: &mut String, s: &str)
    ensures
        final(out)@ == old(out)@ + json_escaped(s@),
{
    let n = s.unicode_len();
    let mut i: usize = 0;
    while i < n
        invariant
            n == s@.len(),
            i <= n,
            out@ == old(out)@ + json_escaped(s@.subrange(0, i as int)),
        decreases n - i,
    {
        let c = s.get_char(i);
        let ghost pre = s@.subrange(0, i as int);
        if c == '"' {
            out.append("\\\"");
        } else if c == '\\' {
            out.append("\\\\");
        } else if (c as u32) < 32 {
            out.append("\\u00");
            let hx = "0123456789abcdef";
            proof {
                reveal_strlit("0123456789abcdef");
            }
            let d = (c as u32) / 16;
            let e = (c as u32) % 16;
            out.append(hx.substring_char(d as usize, d as usize + 1));
            out.append(hx.substring_char(e as usize, e as usize + 1));
            proof {
                assert(hx@.subrange(d as int, d as int + 1) =~= seq![hex_digit(d as int)]);
                assert(hx@.subrange(e as int, e as int + 1) =~= seq![hex_digit(e as int)]);
            }
        } else {
            out.append(s.substring_char(i, i + 1));
            proof {
                assert(s@.subrange(i as int, i as int + 1) =~= seq![c]);
            }
        }
        i = i + 1;
        proof {
            assert(s@.subrange(0, i as int).drop_last() =~= pre);
            assert(s@.subrange(0, i as int).last() == c);
            assert(out@ =~= old(out)@ + json_escaped(s@.subrange(0, i as int)));
        }
    }
    proof {
        assert(s@.subrange(0, n as int) =~= s@);
    }
}

fn append_json_string(out: &mut String, s: &str)
    ensures
        final(out)@ == old(out)@ + json_string(s@),
{
    out.append("\"");
    append_json_escaped(out, s);
    out.append("\"");
    proof {
        reveal_strlit("\"");
        assert(out@ =~= old(out)@ + json_string(s@));
    }
}

fn append_json_string_array(out: &mut String, v: &Vec<String>)
    ensures
        final(out)@ == old(out)@ + json_string_array(str_views(v@)),
{
    out.append("[");
    proof {
        reveal_strlit("[");
    }
    let mut i: usize = 0;
    while i < v.len()
        invariant
            i <= v@.len(),
            str_views(v@).len() == v@.len(),
            out@ == old(out)@ + "["@ + json_string_items(str_views(v@).subrange(0, i as int)),
        decreases v@.len() - i,
    {
        let ghost pre = str_views(v@).subrange(0, i as int);
        if i > 0 {
            out.append(",");
            proof {
                reveal_strlit(",");
            }
        }
        append_json_string(out, v[i].as_str());
        i = i + 1;
        proof {
            let cur = str_views(v@).subrange(0, i as int);
            assert(cur.drop_last() =~= pre);
            assert(cur.last() == v@[i - 1]@);
            assert(out@ =~= old(out)@ + "["@ + json_string_items(cur));
        }
    }
    out.append("]");
    proof {
        reveal_strlit("[");
        reveal_strlit("]");
        assert(str_views(v@).subrange(0, v@.len() as int) =~= str_views(v@));
        assert(out@ =~= old(out)@ + json_string_array(str_views(v@)));
    }
}

impl PublishOptions {
    /// Encodes the upload's metadata part: a JSON object carrying the author
    /// name, the categories, the communities and the nsfw flag.
    pub fn metadata_json_text(&self) -> (r: String)
        ensures
            r@ == metadata_json(
                self.author_name@,
                str_views(self.categories@),
                str_views(self.communities@),
                self.nsfw,
            ),
    {
        let mut out = String::new();
        out.append("{\"author_name\":");
        append_json_string(&mut out, self.author_name.as_str());
        out.append(",\"categories\":");
        append_json_string_array(&mut out, &self.categories);
        out.append(",\"communities\":");
        append_json_string_array(&mut out, &self.communities);
        out.append(",\"has_nsfw_content\":");
        if self.nsfw {
            out.append("true");
        } else {
            out.append("false");
        }
        out.append("}");
        proof {
            assert(out@ =~= metadata_json(
                self.author_name@,
                str_views(self.categories@),
                str_views(self.communities@),
                self.nsfw,
            ));
        }
        out
    }
}

} // verus!
