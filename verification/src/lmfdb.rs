use vstd::prelude::*;

verus! {

/// The text of the URL that two calls give: `url::Url::parse` of `base`, and
/// then `url::Url::join` of the reference `path` on the URL that came of it.
/// `None` where `base` is no absolute URL or `path` cannot be read against it.
pub uninterp spec fn joined(base: Seq<char>, path: Seq<char>) -> Option<Seq<char>>;

/// Calls `url::Url::join` on `base`, parsed by `url::Url::parse`, and gives
/// the text of the URL that comes back. Both calls read their arguments and
/// nothing else, so the result is the same for the same two texts; what it
/// is, the rules of URLs say, and nothing of them is claimed here.
#[verifier::external_body]
fn join(base: &str, path: &str) -> (url: Option<String>)
    ensures
        match url {
            Some(text) => joined(base@, path@) == Some(text@),
            None => joined(base@, path@).is_none(),
        },
{
    match url::Url::parse(base) {
        Ok(base) => match base.join(path) {
            Ok(url) => Some(String::from(url)),
            Err(_) => None,
        },
        Err(_) => None,
    }
}

/// The directory of the archive that holds the manifest and the data files.
pub open spec fn data_directory() -> Seq<char> {
    "https://beta.lmfdb.org:443/data/riemann-zeta-zeros/"@
}

/// The name of the manifest in the directory of the archive.
pub open spec fn manifest_name() -> Seq<char> {
    "md5.txt"@
}

/// The URL of the file `path` in the directory of the archive, and `None`
/// where `path` cannot be read as a reference to a file there.
pub fn lmfdb_data_resolve(path: &str) -> (url: Option<String>)
    ensures
        match url {
            Some(text) => joined(data_directory(), path@) == Some(text@),
            None => joined(data_directory(), path@).is_none(),
        },
{
    join("https://beta.lmfdb.org:443/data/riemann-zeta-zeros/", path)
}

/// The URL of the manifest.
pub fn md5_url() -> (url: Option<String>)
    ensures
        match url {
            Some(text) => joined(data_directory(), manifest_name()) == Some(text@),
            None => joined(data_directory(), manifest_name()).is_none(),
        },
{
    lmfdb_data_resolve("md5.txt")
}

} // verus!
