//! The pure parts of the image-search command: the request URL, the tag
//! escaping of the reply caption, and the size gate on fetched posts. The
//! HTTP calls around them stay with the command layer.

use vstd::prelude::*;
use vstd::string::StrSliceExecFns;
use vstd::string::StringExecFns;

use crate::render::push_char;

verus! {

/// What the image-search command can reject.
#[derive(Clone, Copy, Debug, PartialEq, Eq, Structural)]
pub enum GelbooruError {
    NoPosts,
    PostTooLarge,
}

impl GelbooruError {
    /// The user-facing description of the failure.
    pub fn message(&self) -> (m: &'static str)
        ensures
            m@ == self.message_spec(),
    {
        match self {
            GelbooruError::NoPosts => "Gelbooru did not return any posts.",
            GelbooruError::PostTooLarge => "Found Gelbooru post size is above 25 MiB.",
        }
    }

    /// What `message` returns, for contracts.
    pub open spec fn message_spec(&self) -> Seq<char> {
        match self {
            GelbooruError::NoPosts => "Gelbooru did not return any posts."@,
            GelbooruError::PostTooLarge => "Found Gelbooru post size is above 25 MiB."@,
        }
    }
}

/// The largest post the command will attach to a reply.
pub const POST_SIZE_CAP: u64 = 25 * 1024 * 1024;

/// Whether a fetched post is too large to attach.
pub fn post_too_large(len: u64) -> (r: bool)
    ensures
        r == (len > POST_SIZE_CAP),
{
    len > POST_SIZE_CAP
}

/// A caption with every underscore escaped, so that the chat platform does
/// not read the tags as emphasis.
pub open spec fn escaped(s: Seq<char>) -> Seq<char>
    decreases s.len(),
{
    if s.len() == 0 {
        Seq::empty()
    } else if s.last() == '_' {
        escaped(s.drop_last()) + seq!['\\', '_']
    } else {
        escaped(s.drop_last()).push(s.last())
    }
}

/// Escapes every underscore of a tag list with a backslash, as [`escaped`]
/// says, leaving everything else as it came.
pub fn escape_tags(tags: &str) -> (r: String)
    ensures
        r@ == escaped(tags@),
{
    let n: usize = tags.unicode_len();
    let mut r = String::new();
    let mut i: usize = 0;
    while i < n
        invariant
            n == tags@.len(),
            i <= n,
            r@ == escaped(tags@.take(i as int)),
        decreases n - i,
    {
        let c = tags.get_char(i);
        proof {
            assert(tags@.take(i + 1).drop_last() =~= tags@.take(i as int));
            assert(tags@.take(i + 1).last() == c);
        }
        if c == '_' {
            proof {
                reveal_strlit("\\_");
            }
            r.append("\\_");
            proof {
                assert(r@ =~= escaped(tags@.take(i + 1)));
            }
        } else {
            push_char(&mut r, c);
        }
        i = i + 1;
    }
    proof {
        assert(tags@.take(n as int) =~= tags@);
    }
    r
}

/// The joined query string of ordered key-value pairs: `k=v` pairs with `&`
/// between them.
pub open spec fn query_rep(q: Seq<(Seq<char>, Seq<char>)>) -> Seq<char>
    decreases q.len(),
{
    if q.len() == 0 {
        Seq::empty()
    } else if q.len() == 1 {
        q[0].0 + seq!['='] + q[0].1
    } else {
        query_rep(q.drop_last()) + seq!['&'] + q.last().0 + seq!['='] + q.last().1
    }
}

/// The posts request of the image API: the endpoint and the query pairs, in
/// the order they are sent.
pub struct PostsAPI<'a> {
    pre_query: &'a str,
    query: Vec<(&'a str, String)>,
}

/// The endpoint the posts request goes to.
pub const GELBOORU_API_POSTS: &'static str = "https://gelbooru.com/index.php";

impl<'a> PostsAPI<'a> {
    /// The endpoint, for contracts.
    pub closed spec fn pre_query_spec(&self) -> Seq<char> {
        self.pre_query@
    }

    /// The query pairs, for contracts.
    pub closed spec fn query_spec(&self) -> Seq<(Seq<char>, Seq<char>)> {
        self.query@.map_values(|p: (&str, String)| (p.0@, p.1@))
    }

    /// A posts request for the given tags, always asking for one random
    /// general-rated post as JSON; the caller supplies the API credentials
    /// it read from its environment.
    pub fn new(tags: Option<String>, api_key: String, user_id: String) -> (r: PostsAPI<'a>)
        ensures
            r.pre_query_spec() == GELBOORU_API_POSTS@,
            r.query_spec().len() == 8,
            r.query_spec()[0] == ("page"@, "dapi"@),
            r.query_spec()[1] == ("s"@, "post"@),
            r.query_spec()[2] == ("q"@, "index"@),
            r.query_spec()[3] == ("limit"@, "1"@),
            r.query_spec()[4] == ("json"@, "1"@),
            r.query_spec()[5] == ("api_key"@, api_key@),
            r.query_spec()[6] == ("user_id"@, user_id@),
            r.query_spec()[7].0 == "tags"@,
            r.query_spec()[7].1 == match tags {
                Some(t) => t@ + " sort:random rating:general"@,
                None => "sort:random rating:general"@,
            },
    {
        let tags = match tags {
            Some(t) => t.concat(" sort:random rating:general"),
            None => {
                let mut s = String::new();
                s.append("sort:random rating:general");
                proof {
                    assert(Seq::<char>::empty() + " sort:random rating:general"@
                        == " sort:random rating:general"@) by {
                        assert(Seq::<char>::empty() + " sort:random rating:general"@
                            =~= " sort:random rating:general"@);
                    }
                    assert(s@ =~= "sort:random rating:general"@);
                }
                s
            },
        };
        let mut query: Vec<(&'a str, String)> = Vec::new();
        query.push(("page", dup("dapi")));
        query.push(("s", dup("post")));
        query.push(("q", dup("index")));
        query.push(("limit", dup("1")));
        query.push(("json", dup("1")));
        query.push(("api_key", api_key));
        query.push(("user_id", user_id));
        query.push(("tags", tags));
        PostsAPI { pre_query: GELBOORU_API_POSTS, query }
    }

    /// The request URL: the endpoint, a question mark, and the query pairs
    /// joined as [`query_rep`] says.
    #[verifier::loop_isolation(false)]
    pub fn url(&self) -> (r: String)
        ensures
            r@ == self.pre_query_spec() + seq!['?'] + query_rep(self.query_spec()),
    {
        let mut url = self.pre_query.to_owned();
        proof {
            reveal_strlit("?");
            reveal_strlit("=");
            reveal_strlit("&");
        }
        url.append("?");
        let mut i: usize = 0;
        while i < self.query.len()
            invariant
                i <= self.query@.len(),
                url@ == self.pre_query_spec() + seq!['?'] + query_rep(self.query_spec().take(
                    i as int,
                )),
            decreases self.query@.len() - i,
        {
            if i > 0 {
                url.append("&");
            }
            let pair = &self.query[i];
            url.append(pair.0);
            url.append("=");
            url.append(pair.1.as_str());
            proof {
                let q = self.query_spec();
                assert(q[i as int] == (self.query@[i as int].0@, self.query@[i as int].1@));
                assert(q.take(i + 1).drop_last() =~= q.take(i as int));
                assert(q.take(i + 1).last() == q[i as int]);
                if i == 0 {
                    assert(q.take(1)[0] == q[0]);
                    assert(query_rep(q.take(1)) == q[0].0 + seq!['='] + q[0].1);
                    assert(query_rep(q.take(0)) == Seq::<char>::empty());
                    assert(url@ =~= self.pre_query_spec() + seq!['?'] + query_rep(q.take(1)));
                } else {
                    assert(query_rep(q.take(i + 1)) == query_rep(q.take(i as int)) + seq!['&']
                        + q[i as int].0 + seq!['='] + q[i as int].1);
                    assert(url@ =~= self.pre_query_spec() + seq!['?'] + query_rep(q.take(i + 1)));
                }
            }
            i = i + 1;
        }
        proof {
            assert(self.query_spec().take(self.query@.len() as int) =~= self.query_spec());
        }
        url
    }
}

/// A fresh owned copy of a fixed query value.
fn dup(s: &str) -> (r: String)
    ensures
        r@ == s@,
{
    s.to_owned()
}

} // verus!
