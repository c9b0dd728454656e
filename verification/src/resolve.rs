//! The URL resolver: extract a URL's host, look its pinned address up in
//! the hosts mapping lines, and rewrite the URL text with that address.

use vstd::prelude::*;

verus! {

use crate::table::line_matches;
use crate::text::contains_sub;
use crate::text::lemma_ws_split_tokens_nonempty;
use crate::text::replace_all;
use crate::text::replace_all_str;
use crate::text::split_ws;
use crate::text::str_eq;
use crate::text::views_of;
use crate::text::ws_split;

/// Why a URL could not be resolved against the table.
#[derive(Clone, Copy, Debug, PartialEq, Eq)]
pub enum ResolveError {
    /// The URL text does not parse.
    MalformedUrl,
    /// The URL parses but has no domain as its host.
    NoHost,
    /// No record in the table carries the URL's host.
    NotFound,
}

/// Whether a URL string parses. Stands for the outcome of
/// `url::Url::parse`, which depends on the string alone.
pub uninterp spec fn url_parses(s: Seq<char>) -> bool;

/// The domain of a URL string, when it parses and its host is a domain.
/// Stands for the result of `url::Url::domain` on the parsed URL, which
/// depends on the string alone.
pub uninterp spec fn url_host(s: Seq<char>) -> Option<Seq<char>>;

enum UrlHost {
    Malformed,
    NoHost,
    Host(String),
}

/// Relies on `url::Url::parse` and `url::Url::domain`: whether a URL
/// string parses, and which domain stands as its host, are functions of
/// that string alone.
#[verifier::external_body]
fn extract_domain(url: &str) -> (r: UrlHost)
    ensures
        match r {
            UrlHost::Malformed => !url_parses(url@),
            UrlHost::NoHost => url_parses(url@) && url_host(url@) is None,
            UrlHost::Host(h) => url_parses(url@) && url_host(url@) == Some(h@),
        },
{
    match url::Url::parse(url) {
        Ok(u) => match u.domain() {
            Some(d) => UrlHost::Host(d.to_owned()),
            None => UrlHost::NoHost,
        },
        Err(_) => UrlHost::Malformed,
    }
}

/// The address of the first record line for `host`, if any.
pub open spec fn lookup_ip(lines: Seq<Seq<char>>, host: Seq<char>) -> Option<Seq<char>>
    decreases lines.len(),
{
    if lines.len() == 0 {
        None
    } else if line_matches(lines[0], host) {
        Some(ws_split(lines[0])[0])
    } else {
        lookup_ip(lines.skip(1), host)
    }
}

/// Scan the lines for the first record for `host` and hand its address
/// out.
fn find_ip(lines: &Vec<String>, host: &str) -> (r: Option<String>)
    ensures
        match lookup_ip(views_of(lines@), host@) {
            Some(ip) => r matches Some(s) && s@ == ip,
            None => r is None,
        },
        r is Some ==> host@.len() > 0,
{
    let ghost lv = views_of(lines@);
    let mut i: usize = 0;
    proof {
        assert(lv.skip(0) =~= lv);
    }
    while i < lines.len()
        invariant
            i <= lines.len(),
            lv == views_of(lines@),
            lookup_ip(lv, host@) == lookup_ip(lv.skip(i as int), host@),
        decreases lines.len() - i,
    {
        let line: &String = &lines[i];
        proof {
            assert(lv[i as int] == line@);
            assert(lv.skip(i as int)[0] == lv[i as int]);
            assert(lv.skip(i as int).skip(1) =~= lv.skip(i as int + 1));
            assert(lv.skip(i as int).len() == lv.len() - i);
        }
        let ghost l = line@;
        let mut hit: bool = false;
        let mut ip: Option<String> = None;
        if !crate::table::line_is_comment(line.as_str()) && contains_sub(line.as_str(), host) {
            let parts = split_ws(line.as_str());
            proof {
                assert(views_of(parts@).len() == parts@.len());
            }
            if parts.len() >= 2 {
                proof {
                    assert(views_of(parts@)[1] == parts@[1]@);
                    assert(views_of(parts@)[0] == parts@[0]@);
                }
                if str_eq(parts[1].as_str(), host) {
                    assert(line_matches(l, host@));
                    proof {
                        lemma_ws_split_tokens_nonempty(l);
                    }
                    hit = true;
                    ip = Some(parts[0].clone());
                }
            }
        }
        if hit {
            proof {
                assert(lookup_ip(lv.skip(i as int), host@) == Some(ws_split(l)[0]));
            }
            return ip;
        }
        proof {
            assert(!line_matches(l, host@));
            assert(lookup_ip(lv.skip(i as int), host@) == lookup_ip(
                lv.skip(i as int + 1),
                host@,
            ));
        }
        i += 1;
    }
    proof {
        assert(lv.skip(lines@.len() as int) =~= Seq::<Seq<char>>::empty());
    }
    None
}

/// Resolve a URL against the hosts mapping lines: find the record for the
/// URL's host and return the URL text with every occurrence of the host
/// replaced by the recorded address. The table is only read.
pub fn resolve_url(url: &str, lines: &Vec<String>) -> (r: Result<String, ResolveError>)
    ensures
        !url_parses(url@) ==> r == Err::<String, ResolveError>(ResolveError::MalformedUrl),
        url_parses(url@) && url_host(url@) is None ==> r == Err::<String, ResolveError>(
            ResolveError::NoHost,
        ),
        (url_parses(url@) && url_host(url@) is Some) ==> ({
            let h = url_host(url@)->Some_0;
            match lookup_ip(views_of(lines@), h) {
                Some(ip) => r matches Ok(s) && s@ == replace_all(url@, h, ip),
                None => r == Err::<String, ResolveError>(ResolveError::NotFound),
            }
        }),
{
    match extract_domain(url) {
        UrlHost::Malformed => Err(ResolveError::MalformedUrl),
        UrlHost::NoHost => Err(ResolveError::NoHost),
        UrlHost::Host(host) => {
            match find_ip(lines, host.as_str()) {
                Some(ip) => Ok(replace_all_str(url, host.as_str(), ip.as_str())),
                None => Err(ResolveError::NotFound),
            }
        },
    }
}

} // verus!
