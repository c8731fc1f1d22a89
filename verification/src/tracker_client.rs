//! The addresses of the tracker's HTTP interface, as the node builds them.
use vstd::prelude::*;
use vstd::string::*;
use crate::text::{chars_of, push_chars, string_from_chars};

verus! {

/// The tracker a node talks to, by its base address.
#[derive(Clone, Debug)]
pub struct TrackerClient {
    pub base_url: String,
}

/// The address with every trailing `/` removed.
pub open spec fn trim_trailing_slashes(s: Seq<char>) -> Seq<char>
    decreases s.len(),
{
    if s.len() > 0 && s.last() == '/' {
        trim_trailing_slashes(s.drop_last())
    } else {
        s
    }
}

/// The trimmed address does not end in `/`.
pub proof fn lemma_trimmed_has_no_trailing_slash(s: Seq<char>)
    ensures
        !(trim_trailing_slashes(s).len() > 0 && trim_trailing_slashes(s).last() == '/'),
        trim_trailing_slashes(s).is_prefix_of(s),
        forall|k: int| trim_trailing_slashes(s).len() <= k < s.len() ==> #[trigger] s[k] == '/',
    decreases s.len(),
{
    if s.len() > 0 && s.last() == '/' {
        lemma_trimmed_has_no_trailing_slash(s.drop_last());
        assert forall|k: int| trim_trailing_slashes(s).len() <= k < s.len() implies #[trigger] s[k]
            == '/' by {
            if k < s.len() - 1 {
                assert(s[k] == s.drop_last()[k]);
            }
        }
    }
}

impl TrackerClient {
    /// A client for the tracker at `base_url`, without trailing slashes.
    pub fn new(base_url: &str) -> (r: TrackerClient)
        ensures
            r.base_url@ == trim_trailing_slashes(base_url@),
            r.base_url@.is_prefix_of(base_url@),
            !(r.base_url@.len() > 0 && r.base_url@.last() == '/'),
            forall|k: int| r.base_url@.len() <= k < base_url@.len() ==> #[trigger] base_url@[k] == '/',
    {
        proof {
            lemma_trimmed_has_no_trailing_slash(base_url@);
        }
        let cs = chars_of(base_url);
        let mut n = cs.len();
        assert(cs@.take(n as int) =~= cs@);
        while n > 0 && cs[n - 1] == '/'
            invariant
                n <= cs@.len(),
                trim_trailing_slashes(cs@) == trim_trailing_slashes(cs@.take(n as int)),
            decreases n,
        {
            assert(cs@.take(n as int).drop_last() =~= cs@.take(n - 1));
            n = n - 1;
        }
        let mut out: Vec<char> = Vec::new();
        let mut i: usize = 0;
        while i < n
            invariant
                n <= cs@.len(),
                i <= n,
                out@ == cs@.take(i as int),
            decreases n - i,
        {
            out.push(cs[i]);
            i = i + 1;
            assert(out@ =~= cs@.take(i as int));
        }
        proof {
            assert(trim_trailing_slashes(cs@.take(n as int)) == cs@.take(n as int));
        }
        TrackerClient { base_url: string_from_chars(out.as_slice()) }
    }

    /// The address of `path` on the tracker.
    pub fn url(&self, path: &str) -> (r: String)
        ensures
            r@ == self.base_url@ + path@,
    {
        let mut out = self.base_url.clone();
        push_chars(&mut out, chars_of(path).as_slice());
        out
    }

    /// The address of the list of files.
    pub fn list_file_url(&self) -> (r: String)
        ensures
            r@ == self.base_url@ + "/api/v2/file_list"@,
    {
        self.url("/api/v2/file_list")
    }

    /// The address of a query for `file_id`, a digest or a name.
    pub fn query_file_url(&self, file_id: &str) -> (r: String)
        ensures
            r@ == self.base_url@ + "/api/v2/query?file_id="@ + file_id@,
    {
        let mut out = self.url("/api/v2/query?file_id=");
        push_chars(&mut out, chars_of(file_id).as_slice());
        out
    }

    /// The address to which announces are posted.
    pub fn announce_file_url(&self) -> (r: String)
        ensures
            r@ == self.base_url@ + "/api/v2/file_announce"@,
    {
        self.url("/api/v2/file_announce")
    }

    /// The address to which peer reports are posted.
    pub fn update_peer_url(&self) -> (r: String)
        ensures
            r@ == self.base_url@ + "/api/v2/update"@,
    {
        self.url("/api/v2/update")
    }

    /// The address of the seeding peers of the file with digest `file_hash`.
    pub fn peer_list_url(&self, file_hash: &str) -> (r: String)
        ensures
            r@ == self.base_url@ + "/api/v2/peer_list?file_hash="@ + file_hash@,
    {
        let mut out = self.url("/api/v2/peer_list?file_hash=");
        push_chars(&mut out, chars_of(file_hash).as_slice());
        out
    }
}

} // verus!
