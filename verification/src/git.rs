//! Where clones live and what they are cloned from.
use vstd::prelude::*;
use crate::paths;
use crate::text;

verus! {

/// Default clone location, relative to the invocation root.
pub open spec fn clone_home() -> Seq<char> {
    paths::joined(".conjure"@, "deps"@)
}

/// Default clone location, relative to the invocation root.
pub fn cache_dir() -> (out: String)
    ensures
        out@ == clone_home(),
{
    paths::join(".conjure", "deps")
}

/// The server of a known host.
pub open spec fn server(host: Seq<char>) -> Option<Seq<char>> {
    if host == "codeberg"@ {
        Some("codeberg.org"@)
    } else if host == "github"@ {
        Some("github.com"@)
    } else if host == "bitbucket"@ {
        Some("bitbucket.org"@)
    } else {
        None
    }
}

/// The clone URL for a path on a host, and a transport. On any other host the path
/// is the URL.
pub open spec fn url(host: Seq<char>, path: Seq<char>, transport: Seq<char>) -> Seq<char> {
    match server(host) {
        Some(base) => if transport == "https"@ {
            "https://"@ + base + "/"@ + path + ".git"@
        } else {
            "git@"@ + base + ":"@ + path + ".git"@
        },
        None => path,
    }
}

/// Build the clone URL for a known host and transport. An unrecognised host is
/// treated as the path itself, so `git` + a full URL works.
pub fn remote_url(host: &str, path: &str, transport: &str) -> (out: String)
    ensures
        out@ == url(host@, path@, transport@),
{
    let base = if text::same(host, "codeberg") {
        "codeberg.org"
    } else if text::same(host, "github") {
        "github.com"
    } else if text::same(host, "bitbucket") {
        "bitbucket.org"
    } else {
        return path.to_owned();
    };
    let mut out = if text::same(transport, "https") {
        text::cat3("https://", base, "/")
    } else {
        text::cat3("git@", base, ":")
    };
    out.append(path);
    out.append(".git");
    out
}

/// What a remote is cloned from: its path on the server of a known host, over the
/// transport that is asked for, or the path itself on any other.
pub proof fn law_clone_urls(path: Seq<char>, transport: Seq<char>, host: Seq<char>)
    ensures
        url("codeberg"@, path, "https"@) == "https://codeberg.org/"@ + path + ".git"@,
        url("github"@, path, "https"@) == "https://github.com/"@ + path + ".git"@,
        url("bitbucket"@, path, "https"@) == "https://bitbucket.org/"@ + path + ".git"@,
        transport != "https"@ ==> url("codeberg"@, path, transport) == "git@codeberg.org:"@ + path
            + ".git"@,
        transport != "https"@ ==> url("github"@, path, transport) == "git@github.com:"@ + path
            + ".git"@,
        transport != "https"@ ==> url("bitbucket"@, path, transport) == "git@bitbucket.org:"@ + path
            + ".git"@,
        host != "codeberg"@ && host != "github"@ && host != "bitbucket"@ ==> url(
            host,
            path,
            transport,
        ) == path,
{
    reveal_strlit("codeberg");
    reveal_strlit("github");
    reveal_strlit("bitbucket");
    reveal_strlit("https://");
    reveal_strlit("git@");
    reveal_strlit("/");
    reveal_strlit(":");
    reveal_strlit("codeberg.org");
    reveal_strlit("github.com");
    reveal_strlit("bitbucket.org");
    reveal_strlit("https://codeberg.org/");
    reveal_strlit("https://github.com/");
    reveal_strlit("https://bitbucket.org/");
    reveal_strlit("git@codeberg.org:");
    reveal_strlit("git@github.com:");
    reveal_strlit("git@bitbucket.org:");
    assert("codeberg"@[0] == 'c' && "github"@[0] == 'g' && "bitbucket"@[0] == 'b');
    assert("https://"@ + "codeberg.org"@ + "/"@ =~= "https://codeberg.org/"@);
    assert("https://"@ + "github.com"@ + "/"@ =~= "https://github.com/"@);
    assert("https://"@ + "bitbucket.org"@ + "/"@ =~= "https://bitbucket.org/"@);
    assert("git@"@ + "codeberg.org"@ + ":"@ =~= "git@codeberg.org:"@);
    assert("git@"@ + "github.com"@ + ":"@ =~= "git@github.com:"@);
    assert("git@"@ + "bitbucket.org"@ + ":"@ =~= "git@bitbucket.org:"@);
}

} // verus!
