use vstd::prelude::*;

verus! {

/// The path that `std::path::Path::join` builds from `base` and `part`.
pub uninterp spec fn joined_path(base: Seq<char>, part: Seq<char>) -> Seq<char>;

/// The parent that `std::path::Path::parent` finds for `path`.
pub uninterp spec fn parent_path(path: Seq<char>) -> Option<Seq<char>>;

/// The serialization of the `file:` URL that `url::Url::from_file_path` makes of `path`.
pub uninterp spec fn file_url(path: Seq<char>) -> Option<Seq<char>>;

/// The file path that `url::Url::parse` and `Url::to_file_path` find in the URL `url`, read as
/// text.
pub uninterp spec fn url_file_path(url: Seq<char>) -> Option<Seq<char>>;

/// On Unix, where this library runs, a path is absolute when it starts at the root.
pub open spec fn is_absolute(path: Seq<char>) -> bool {
    path.len() > 0 && path[0] == '/'
}

/// `std::path::Path::join`: the path `part` appended to `base`. The documentation of
/// `PathBuf::push` says that an absolute `part` (on Unix: one that starts with `/`) replaces
/// `base`, and that a relative one extends `base`, after a separator when `base` does not end
/// in one (its example: `/tmp` and `file.bk` give `/tmp/file.bk`). What an empty `base` or one
/// that ends in `/` gives with a relative `part` is left to the name `joined_path`.
#[verifier::external_body]
pub(crate) fn path_join(base: &str, part: &str) -> (r: String)
    ensures
        r@ == joined_path(base@, part@),
        is_absolute(part@) ==> r@ == part@,
        !is_absolute(part@) && base@.len() > 0 && base@.last() != '/' ==> r@ == base@ + seq!['/']
            + part@,
{
    std::path::Path::new(base).join(part).to_string_lossy().into_owned()
}

/// `std::path::Path::parent`: the path without its last component, or `None` when `path` ends
/// in the root or is empty, as its documentation says.
#[verifier::external_body]
pub(crate) fn path_parent(path: &str) -> (r: Option<String>)
    ensures
        match r {
            Some(p) => parent_path(path@) == Some(p@),
            None => parent_path(path@) is None,
        },
        path@.len() == 0 ==> r is None,
        path@ == seq!['/'] ==> r is None,
{
    std::path::Path::new(path).parent().map(|p| p.to_string_lossy().into_owned())
}

/// `url::Url::from_file_path` (the one of `lspower::lsp`), serialized: it fails exactly when
/// `path` is not absolute, and otherwise builds a URL whose serialization starts with
/// `file://`, as the crate's source shows. The rest of the serialization is left to the name
/// `file_url`.
#[verifier::external_body]
pub(crate) fn file_path_url(path: &str) -> (r: Option<String>)
    ensures
        match r {
            Some(u) => file_url(path@) == Some(u@),
            None => file_url(path@) is None,
        },
        r is Some <==> is_absolute(path@),
        r matches Some(u) ==> u@.take(7) == seq!['f', 'i', 'l', 'e', ':', '/', '/'],
{
    lspower::lsp::Url::from_file_path(path).ok().map(|u| u.to_string())
}

/// `url::Url::parse` then `Url::to_file_path` (those of `lspower::lsp`), the path read as text
/// with `to_string_lossy`: the file path that the URL names, if it names one. On Unix the
/// crate's source builds that path of a `/` before each segment of the URL's path, so it is
/// absolute. Which URLs name a path, and which path, is left to the name `url_file_path`.
#[verifier::external_body]
pub(crate) fn url_to_file_path(url: &str) -> (r: Option<String>)
    ensures
        match r {
            Some(p) => url_file_path(url@) == Some(p@),
            None => url_file_path(url@) is None,
        },
        r matches Some(p) ==> is_absolute(p@),
{
    match lspower::lsp::Url::parse(url) {
        Ok(u) => match u.to_file_path() {
            Ok(p) => Some(p.to_string_lossy().into_owned()),
            Err(_) => None,
        },
        Err(_) => None,
    }
}

} // verus!
