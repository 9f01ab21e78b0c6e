//! URLs and hosts, as the `url` crate reads them.
//!
//! Nothing in this file is proved: each contract states what the outside
//! function does, as its source shows it.

use vstd::prelude::*;

verus! {

/// Why a URL or a host could not be read.
#[verifier::external_type_specification]
#[verifier::external_body]
pub struct ExParseError(url::ParseError);

/// The serialisation of the URL that `text` stands for, where it stands for
/// one.
pub uninterp spec fn url_normal_form(text: Seq<char>) -> Option<Seq<char>>;

/// The serialisation of the host that `text` stands for, where it stands
/// for one: a domain, an IPv4 address, or an IPv6 address in brackets.
pub uninterp spec fn host_normal_form(text: Seq<char>) -> Option<Seq<char>>;

/// `url::Url::parse`, and the URL as a string: the serialisation of the URL
/// that `text` stands for, or the crate's error where it stands for none.
#[verifier::external_body]
pub(crate) fn url_parse(text: &str) -> (r: Result<String, url::ParseError>)
    ensures
        r is Ok <==> url_normal_form(text@) is Some,
        r matches Ok(s) ==> url_normal_form(text@) == Some(s@),
{
    match url::Url::parse(text) {
        Ok(url) => Ok(String::from(url)),
        Err(e) => Err(e),
    }
}

/// `url::Host::parse`, and the host as a string: the serialisation of the
/// host that `text` stands for, or the crate's error where it stands for
/// none.
#[verifier::external_body]
pub(crate) fn host_parse(text: &str) -> (r: Result<String, url::ParseError>)
    ensures
        r is Ok <==> host_normal_form(text@) is Some,
        r matches Ok(s) ==> host_normal_form(text@) == Some(s@),
{
    match url::Host::parse(text) {
        Ok(host) => Ok(host.to_string()),
        Err(e) => Err(e),
    }
}

/// The number of characters below which a URL and a query are handed to
/// the crate, which counts their bytes in 32 bits.
pub const URL_LENGTH_LIMIT: usize = 0x0800_0000;

/// The serialisation of the URL `base` with the query `query` in place of
/// its own, where `base` stands for a URL.
pub uninterp spec fn url_with_query(base: Seq<char>, query: Seq<char>) -> Option<Seq<char>>;

/// `url::Url::parse`, then `url::Url::set_query`, and the URL as a string:
/// the serialisation of the URL that `base` stands for, with the query
/// `query`, or nothing where `base` stands for no URL. The crate keeps
/// positions within a URL in 32 bits, so both must be short of that.
#[verifier::external_body]
pub(crate) fn url_set_query(base: &str, query: &str) -> (r: Option<String>)
    requires
        base@.len() < URL_LENGTH_LIMIT,
        query@.len() < URL_LENGTH_LIMIT,
    ensures
        r is Some <==> url_with_query(base@, query@) is Some,
        r matches Some(s) ==> url_with_query(base@, query@) == Some(s@),
{
    match url::Url::parse(base) {
        Ok(mut url) => {
            url.set_query(Some(query));
            Some(String::from(url))
        },
        Err(_) => None,
    }
}

} // verus!
