//! The validated base address of an API server and the address of a watch.

use vstd::prelude::*;
use vstd::string::StrSliceExecFns;
use vstd::string::StringExecFns;
use crate::Error;
use crate::ext::url_check;
use crate::ext::url_parse_ok;

verus! {

/// The path suffix that asks the server to watch a resource rather than
/// list it once.
pub open spec fn watch_path_spec(name: Seq<char>) -> Seq<char> {
    name + "?watch=true"@
}

/// The absolute address of the watch request for `name` against `host`:
/// `<host>/<name>?watch=true`, without doubling the slash when the host
/// address already ends in one.
pub open spec fn joined_spec(host: Seq<char>, name: Seq<char>) -> Seq<char> {
    if host.len() > 0 && host[host.len() - 1] == '/' {
        host + watch_path_spec(name)
    } else {
        host + "/"@ + watch_path_spec(name)
    }
}

/// A connection target: a base address (scheme, host, port) that the url
/// crate has accepted, held read-only for the lifetime of the handle.
#[derive(Debug)]
pub struct Cluster {
    host: String,
}

impl Cluster {
    /// The stored base address.
    pub closed spec fn host_spec(self) -> Seq<char> {
        self.host@
    }

    /// A handle only ever holds an address that validated.
    pub closed spec fn inv(self) -> bool {
        url_parse_ok(self.host@)
    }

    /// Validate a base address and keep it.
    ///
    /// Fails with `InvalidUrl` exactly when the address is not a
    /// well-formed absolute URL.  Validation only parses: no connection is
    /// opened either way.
    pub fn new(host: &str) -> (r: Result<Cluster, Error>)
        ensures
            match r {
                Ok(c) => url_parse_ok(host@) && c.inv() && c.host_spec() == host@,
                Err(e) => !url_parse_ok(host@) && e is InvalidUrl,
            },
    {
        match url_check(host) {
            Ok(_) => Ok(Cluster { host: host.to_owned() }),
            Err(e) => Err(Error::InvalidUrl(e)),
        }
    }

    /// The address to request when watching resource `name`.
    ///
    /// Returns exactly `<host>/<name>?watch=true`, provided that joined
    /// address is itself a URL the url crate accepts; fails with
    /// `InvalidUrl` exactly when it is not.
    pub fn watch_url(&self, name: &str) -> (r: Result<String, Error>)
        requires
            self.inv(),
        ensures
            match r {
                Ok(u) => u@ == joined_spec(self.host_spec(), name@) && url_parse_ok(u@),
                Err(e) => !url_parse_ok(joined_spec(self.host_spec(), name@))
                    && e is InvalidUrl,
            },
    {
        let s = self.host.as_str();
        let n = s.unicode_len();
        let mut u = self.host.clone();
        if !(n > 0 && s.get_char(n - 1) == '/') {
            u.append("/");
        }
        u.append(name);
        u.append("?watch=true");
        proof {
            assert(u@ == joined_spec(self.host@, name@));
        }
        match url_check(u.as_str()) {
            Ok(_) => Ok(u),
            Err(e) => Err(Error::InvalidUrl(e)),
        }
    }
}

} // verus!
