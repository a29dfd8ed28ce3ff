//! Interpreting editor-protocol URLs as local file paths.  The URL type
//! itself belongs to an outside crate and is only read through thin
//! wrappers; the decision of what counts as a local file is verified.

use vstd::prelude::*;

verus! {

#[verifier::external_type_specification]
#[verifier::external_body]
pub struct ExUrl(lsp_types::Url);

/// Relies on url::Url::scheme (re-exported through lsp_types): the scheme
/// of the URL as a lowercase ASCII string, read out of the parsed URL.
#[verifier::external_body]
fn url_scheme(u: &lsp_types::Url) -> String {
    u.scheme().to_owned()
}

/// Relies on url::Url::has_host: whether the URL carries a host part.
#[verifier::external_body]
fn url_has_host(u: &lsp_types::Url) -> bool {
    u.has_host()
}

/// Relies on url::Url::path: the path of the URL as a percent-encoded
/// ASCII string, `/`-separated.
#[verifier::external_body]
fn url_path(u: &lsp_types::Url) -> String {
    u.path().to_owned()
}

/// The characters of the `file` URL scheme.
pub open spec fn file_scheme() -> Seq<char> {
    seq!['f', 'i', 'l', 'e']
}

/// The decision behind `uri_path`: a path is handed back exactly when the
/// scheme is `file` and no host is present.
pub fn local_file_path(scheme: &str, has_host: bool, path: String) -> (r: Option<String>)
    ensures
        (scheme@ == file_scheme() && !has_host) ==> (r matches Some(p) && p@ == path@),
        !(scheme@ == file_scheme() && !has_host) ==> r is None,
{
    if has_host {
        return None;
    }
    if scheme.unicode_len() != 4 {
        proof {
            if scheme@ == file_scheme() {
                assert(scheme@.len() == 4);
            }
        }
        return None;
    }
    if scheme.get_char(0) == 'f' && scheme.get_char(1) == 'i' && scheme.get_char(2) == 'l'
        && scheme.get_char(3) == 'e' {
        proof {
            assert(scheme@ =~= file_scheme());
        }
        Some(path)
    } else {
        proof {
            if scheme@ == file_scheme() {
                assert(scheme@[0] == 'f' && scheme@[1] == 'i' && scheme@[2] == 'l' && scheme@[3]
                    == 'e');
            }
        }
        None
    }
}

/// The local file path a URL denotes, when it denotes one: URLs with a
/// scheme other than `file`, or with a host, name no local file.  The
/// URL's parts are read through the trusted wrappers above and the
/// decision is made by `local_file_path`.
pub fn uri_path(uri: &lsp_types::Url) -> Option<String> {
    let scheme = url_scheme(uri);
    let has_host = url_has_host(uri);
    let path = url_path(uri);
    local_file_path(scheme.as_str(), has_host, path)
}

} // verus!
