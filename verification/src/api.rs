//! Client handle of the message-board HTTP API.
//!
//! [`Client`] remembers the server's base URL, normalized so that request
//! paths can be appended to it directly.  The surrounding application owns
//! the actual connections and requests.

use vstd::prelude::*;

verus! {

use vstd::seq::Seq;
use vstd::string::{StrSliceExecFns, StringExecFns};

/// A handle on one server, by its base URL.
#[derive(Debug, Clone)]
pub struct Client {
    server_url: String,
}

impl Client {
    /// The stored base URL.
    pub closed spec fn url(&self) -> Seq<char> {
        self.server_url@
    }

    /// Build a client for the given server.  One trailing `/` is dropped,
    /// so that paths such as `/hello` can be appended directly.
    pub fn with_server(server_url: String) -> (r: Client)
        ensures
            r.url() == if server_url@.len() > 0 && server_url@.last() == '/' {
                server_url@.drop_last()
            } else {
                server_url@
            },
    {
        let n = server_url.as_str().unicode_len();
        if n > 0 && server_url.as_str().get_char(n - 1) == '/' {
            let trimmed = String::from_str(server_url.as_str().substring_char(0, n - 1));
            proof {
                assert(trimmed@ =~= server_url@.drop_last());
            }
            Client { server_url: trimmed }
        } else {
            Client { server_url }
        }
    }

    /// The server's base URL.
    pub fn server_url(&self) -> (r: &str)
        ensures
            r@ == self.url(),
    {
        self.server_url.as_str()
    }
}

impl Default for Client {
    /// A client for a server on the local machine's conventional port.
    fn default() -> (r: Self)
        ensures
            r.url() == "http://127.0.0.1:3000"@,
    {
        proof {
            reveal_strlit("http://127.0.0.1:3000");
        }
        Client::with_server(String::from_str("http://127.0.0.1:3000"))
    }
}

} // verus!
