//! Mapping of `pt://` archive pointers to Pithos HTTP URLs.
use vstd::prelude::*;
use crate::text::{chars_of, push_char};

verus! {

/// The scheme prefix of a logical archive pointer.
pub open spec fn pt_scheme() -> Seq<char> {
    seq!['p', 't', ':', '/', '/']
}

/// `uri` without a leading `pt://`.
pub open spec fn strip_pt_scheme(uri: Seq<char>) -> Seq<char> {
    if uri.len() >= 5 && uri.take(5) == pt_scheme() {
        uri.skip(5)
    } else {
        uri
    }
}

/// `s` without its trailing slashes.
pub open spec fn trim_end_slashes(s: Seq<char>) -> Seq<char>
    decreases s.len(),
{
    if s.len() > 0 && s.last() == '/' {
        trim_end_slashes(s.drop_last())
    } else {
        s
    }
}

/// `s` without its leading slashes.
pub open spec fn trim_start_slashes(s: Seq<char>) -> Seq<char>
    decreases s.len(),
{
    if s.len() > 0 && s[0] == '/' {
        trim_start_slashes(s.drop_first())
    } else {
        s
    }
}

/// The HTTP URL of a logical pointer under a base URL: `<base>/<path>`, with the
/// `pt://` scheme dropped and the slashes at the junction normalized to one.
pub open spec fn pt_url(base: Seq<char>, uri: Seq<char>) -> Seq<char> {
    trim_end_slashes(base) + seq!['/'] + trim_start_slashes(strip_pt_scheme(uri))
}

proof fn lemma_trim_end_prefix(s: Seq<char>, e: int)
    requires
        0 <= e <= s.len(),
        forall|j: int| e <= j < s.len() ==> s[j] == '/',
    ensures
        trim_end_slashes(s) == trim_end_slashes(s.take(e)),
    decreases s.len() - e,
{
    if e < s.len() {
        assert(s.drop_last() =~= s.take(s.len() - 1));
        lemma_trim_end_prefix(s.drop_last(), e);
        assert(s.drop_last().take(e) =~= s.take(e));
    } else {
        assert(s.take(e) =~= s);
    }
}

proof fn lemma_trim_start_suffix(s: Seq<char>, b: int)
    requires
        0 <= b <= s.len(),
        forall|j: int| 0 <= j < b ==> s[j] == '/',
    ensures
        trim_start_slashes(s) == trim_start_slashes(s.skip(b)),
    decreases b,
{
    if b > 0 {
        lemma_trim_start_suffix(s.drop_first(), b - 1);
        assert(s.drop_first().skip(b - 1) =~= s.skip(b));
    } else {
        assert(s.skip(0) =~= s);
    }
}

/// Maps a `pt://` logical URI to an HTTP URL under the configured base:
/// `pt://archive/<dataId>/<artifactType>` becomes `<base_url>/archive/<dataId>/<artifactType>`.
pub fn pt_uri_to_url(base_url: &str, uri: &str) -> (r: String)
    ensures
        r@ == pt_url(base_url@, uri@),
{
    let b = chars_of(base_url);
    let u = chars_of(uri);
    // Length of the base without its trailing slashes.
    let mut e = b.len();
    while e > 0 && b[e - 1] == '/'
        invariant
            e <= b@.len(),
            b@ == base_url@,
            forall|j: int| e <= j < b@.len() ==> b@[j] == '/',
        decreases e,
    {
        e = e - 1;
    }
    proof {
        lemma_trim_end_prefix(b@, e as int);
        assert(trim_end_slashes(b@.take(e as int)) == b@.take(e as int));
    }
    // Start of the path: after the scheme, then after any leading slashes.
    let has_scheme = u.len() >= 5 && u[0] == 'p' && u[1] == 't' && u[2] == ':' && u[3] == '/'
        && u[4] == '/';
    let start = if has_scheme { 5 } else { 0 };
    let ghost path = strip_pt_scheme(u@);
    proof {
        if has_scheme {
            assert(u@.take(5) =~= pt_scheme());
            assert(path == u@.skip(5));
        } else {
            if u@.len() >= 5 && u@.take(5) == pt_scheme() {
                assert(u@.take(5)[0] == 'p');
                assert(u@.take(5)[1] == 't');
                assert(u@.take(5)[2] == ':');
                assert(u@.take(5)[3] == '/');
                assert(u@.take(5)[4] == '/');
            }
            assert(path == u@);
            assert(u@.skip(0) =~= u@);
        }
    }
    let mut s = start;
    while s < u.len() && u[s] == '/'
        invariant
            start <= s <= u@.len(),
            u@ == uri@,
            path == u@.skip(start as int),
            forall|j: int| start <= j < s ==> u@[j] == '/',
        decreases u@.len() - s,
    {
        s = s + 1;
    }
    proof {
        lemma_trim_start_suffix(path, s - start);
        assert(path.skip(s - start) =~= u@.skip(s as int));
        assert(trim_start_slashes(u@.skip(s as int)) == u@.skip(s as int));
    }
    let mut out = String::new();
    for i in 0..e
        invariant
            e <= b@.len(),
            out@ == b@.take(i as int),
    {
        push_char(&mut out, b[i]);
        assert(b@.take(i as int).push(b@[i as int]) =~= b@.take(i + 1));
    }
    push_char(&mut out, '/');
    let ghost prefix = out@;
    let n = u.len();
    for i in s..n
        invariant
            s <= i <= n,
            n == u@.len(),
            out@ == prefix + u@.subrange(s as int, i as int),
    {
        push_char(&mut out, u[i]);
        assert(u@.subrange(s as int, i as int).push(u@[i as int]) =~= u@.subrange(s as int, i + 1));
    }
    assert(u@.subrange(s as int, n as int) =~= u@.skip(s as int));
    assert(prefix =~= b@.take(e as int) + seq!['/']);
    out
}

} // verus!
