//! Laws of sessions and of verification, stated over the fields of what a caller
//! sees.

use vstd::prelude::*;
use vstd::utf8::*;

use crate::algo::{content_hash, normalized_algo};
use crate::error::{Error, ErrorView};
use crate::hash_verifier::VerifierView;
use crate::hasher::{digest_of, digestible, sha1_digest, sha256_digest, sha512_digest};
use crate::hex::hex;
use crate::laws::law_every_source_is_tried;
use crate::session::{
    header_texts, is_shuffle, opened, server_attempt, FetchSession, SessionView,
};
use crate::sfv::{encoded_list, server_list, string_list};
use crate::text::{is_white_space, lower};
use crate::text_laws::{law_full_hashes_are_accepted, law_trailing_run, law_trimming};

verus! {

// --- Verification ---

/// The digest of a message is the one that the named algorithm gives.
pub proof fn law_digest_is_the_algorithms(message: Seq<u8>)
    ensures
        digest_of("sha1"@, message) == sha1_digest(message),
        digest_of("sha256"@, message) == sha256_digest(message),
        digest_of("sha512"@, message) == sha512_digest(message),
{
    crate::hasher::lemma_names_differ();
}

/// A verifier starts with nothing written, remembers what it was made for, and
/// adds what is written to what was written before.
pub proof fn law_verifier_remembers<W>(
    algo: Seq<char>,
    expected: Seq<char>,
    inner: W,
    v: VerifierView<W>,
    data: Seq<u8>,
)
    ensures
        VerifierView::fresh(algo, expected, inner).written.len() == 0,
        VerifierView::fresh(algo, expected, inner).algo == algo,
        VerifierView::fresh(algo, expected, inner).expected == expected,
        VerifierView::fresh(algo, expected, inner).inner == inner,
        v.wrote(data).written == v.written + data,
        v.wrote(data).algo == v.algo,
        v.wrote(data).expected == v.expected,
        v.wrote(data).inner == v.inner,
{
}

/// Content passes just where its digest under the verifier's algorithm, in
/// hexadecimal, is the expected hash: the writer then comes back. Otherwise both
/// hashes are reported.
pub proof fn law_verdict<W>(v: VerifierView<W>, digest: Seq<u8>)
    requires
        v.algo == "sha1"@ && digest == sha1_digest(v.written) || v.algo == "sha256"@ && digest
            == sha256_digest(v.written) || v.algo == "sha512"@ && digest == sha512_digest(
            v.written,
        ),
    ensures
        hex(digest) == v.expected ==> v.verdict() == Ok::<W, ErrorView>(v.inner),
        hex(digest) != v.expected ==> v.verdict() == Err::<W, ErrorView>(
            ErrorView::HashMismatch { expected: v.expected, actual: hex(digest) },
        ),
{
    law_digest_is_the_algorithms(v.written);
}

/// A content of up to 2^61 - 1 bytes can be hashed with every algorithm, and one
/// of up to 2^64 - 1 bytes with SHA-512.
pub proof fn law_length_limits(algo: Seq<char>, len: nat)
    ensures
        digestible(algo, len) <==> len < 0x2000_0000_0000_0000 || algo == "sha512"@ && len
            < 0x1_0000_0000_0000_0000,
{
}

// --- The plan of a session ---

/// The texts of headers are their names and values, in order.
pub proof fn law_header_by_header(headers: Seq<(String, String)>)
    ensures
        header_texts(headers).len() == headers.len(),
        forall|i: int|
            0 <= i < headers.len() ==> (#[trigger] header_texts(headers)[i]).0 == headers[i].0@
                && header_texts(headers)[i].1 == headers[i].1@,
{
}

/// A server with any number of slashes at its end is asked at its base, a slash,
/// the algorithm, a slash and the hash, with one header: the source URLs as a
/// list.
pub proof fn law_server_request(
    base: Seq<char>,
    slashes: nat,
    algo: Seq<char>,
    hash: Seq<char>,
    sources: Seq<Seq<char>>,
)
    requires
        base.len() > 0 ==> base[base.len() - 1] != '/',
    ensures
        ({
            let a = server_attempt(
                base + Seq::new(slashes, |i: int| '/'),
                algo,
                hash,
                sources,
            );
            &&& a.url == base + "/"@ + algo + "/"@ + hash
            &&& a.headers.len() == 1
            &&& a.headers[0].0 == "X-Source-Urls"@
            &&& a.headers[0].1 == encoded_list(sources)
        }),
{
    reveal_strlit("/");
    assert("/"@ =~= seq!['/']);
    law_trailing_run(base, '/', slashes);
}

/// A new session asks the servers in the order given, and then every source at
/// its own URL, as it was given and without headers. Nothing has been handed out
/// and nothing reported.
pub proof fn law_plan(
    servers: Seq<Seq<char>>,
    algo: Seq<char>,
    hash: Seq<char>,
    sources: Seq<Seq<char>>,
    direct: Seq<Seq<char>>,
)
    ensures
        ({
            let s = SessionView::planned(servers, algo, hash, sources, direct);
            &&& s.attempts.len() == servers.len() + direct.len()
            &&& forall|i: int|
                0 <= i < servers.len() ==> #[trigger] s.attempts[i] == server_attempt(
                    servers[i],
                    algo,
                    hash,
                    sources,
                )
            &&& forall|i: int|
                servers.len() <= i < s.attempts.len() ==> (#[trigger] s.attempts[i]).url
                    == direct[i - servers.len()] && s.attempts[i].headers.len() == 0
            &&& s.current == 0
            &&& !s.done
            &&& !s.success
            &&& s.algo == algo
            &&& s.hash == hash
        }),
{
}

/// The URLs that a new session asks directly are the sources, each as often as it
/// was given.
pub proof fn law_direct_urls_are_the_sources(
    servers: Seq<Seq<char>>,
    algo: Seq<char>,
    hash: Seq<char>,
    sources: Seq<Seq<char>>,
    direct: Seq<Seq<char>>,
)
    requires
        is_shuffle(direct, sources),
    ensures
        ({
            let s = SessionView::planned(servers, algo, hash, sources, direct);
            let asked = Seq::new(
                (s.attempts.len() - servers.len()) as nat,
                |i: int| s.attempts[servers.len() + i].url,
            );
            &&& asked.len() == sources.len()
            &&& asked.to_multiset() == sources.to_multiset()
        }),
{
    law_every_source_is_tried(direct, sources);
    let s = SessionView::planned(servers, algo, hash, sources, direct);
    let asked = Seq::new(
        (s.attempts.len() - servers.len()) as nat,
        |i: int| s.attempts[servers.len() + i].url,
    );
    assert(asked =~= direct);
}

/// Opening a session without sources, with an algorithm that is not supported, or
/// with a hash that is not a full digest in hexadecimal is refused, in this order,
/// with the matching error; any other is opened, for the hash in lowercase, with
/// an attempt for every server and every source.
pub proof fn law_opening(
    r: Result<FetchSession, Error>,
    servers: Seq<Seq<char>>,
    algo: Seq<char>,
    hash: Seq<char>,
    sources: Seq<Seq<char>>,
)
    requires
        opened(r, servers, algo, hash, sources),
    ensures
        ({
            let key = normalized_algo(algo);
            let supported = key == "sha1"@ || key == "sha256"@ || key == "sha512"@;
            &&& r is Ok <==> {
                &&& sources.len() > 0
                &&& {
                    ||| key == "sha1"@ && hash.len() == 40
                    ||| key == "sha256"@ && hash.len() == 64
                    ||| key == "sha512"@ && hash.len() == 128
                }
                &&& forall|i: int|
                    0 <= i < hash.len() ==> {
                        ||| '0' <= #[trigger] hash[i] <= '9'
                        ||| 'a' <= hash[i] <= 'f'
                        ||| 'A' <= hash[i] <= 'F'
                    }
            }
            &&& sources.len() == 0 ==> r->Err_0 is MissingSourceUrls
            &&& sources.len() > 0 && !supported ==> (r->Err_0 matches Error::UnsupportedAlgorithm(
                name,
            ) && name@ == key)
            &&& sources.len() > 0 && supported && r is Err ==> {
                &&& r->Err_0 is InvalidHash
                &&& content_hash(algo, hash) == Err::<Seq<char>, ErrorView>(r->Err_0@)
            }
            &&& r is Ok ==> {
                let s = r->Ok_0@;
                &&& s.algo == key
                &&& s.hash == lower(hash)
                &&& s.current == 0
                &&& !s.done
                &&& !s.success
                &&& s.attempts.len() == servers.len() + sources.len()
                &&& forall|i: int|
                    0 <= i < servers.len() ==> #[trigger] s.attempts[i] == server_attempt(
                        servers[i],
                        key,
                        lower(hash),
                        sources,
                    )
                &&& forall|i: int|
                    servers.len() <= i < s.attempts.len() ==> (
                    #[trigger] s.attempts[i]).headers.len() == 0 && sources.contains(
                        s.attempts[i].url,
                    )
                &&& Seq::new(
                    sources.len(),
                    |i: int| s.attempts[servers.len() + i].url,
                ).to_multiset() == sources.to_multiset()
            }
        }),
{
    crate::hasher::lemma_names_differ();
    law_full_hashes_are_accepted(algo, hash);
    if r is Ok {
        let s = r->Ok_0@;
        crate::algo::law_content_hash_form(algo, hash);
        let direct = choose|direct: Seq<Seq<char>>| #[trigger]
            is_shuffle(direct, sources) && s == SessionView::planned(
                servers,
                normalized_algo(algo),
                content_hash(algo, hash)->Ok_0,
                sources,
                direct,
            );
        law_every_source_is_tried(direct, sources);
        assert(Seq::new(sources.len(), |i: int| s.attempts[servers.len() + i].url) =~= direct);
        assert forall|i: int| servers.len() <= i < s.attempts.len() implies (
        #[trigger] s.attempts[i]).headers.len() == 0 && sources.contains(s.attempts[i].url) by {
            assert(s.attempts[i].url == direct[i - servers.len()]);
            assert(direct.contains(direct[i - servers.len()]));
        }
    }
}

/// A server value between white space is one server, just as it stands, where it
/// does not start with a quote; else it is a list of strings. White space alone
/// names no server.
pub proof fn law_server_value(before: Seq<char>, core: Seq<char>, after: Seq<char>)
    requires
        forall|i: int| 0 <= i < before.len() ==> is_white_space(#[trigger] before[i]),
        forall|i: int| 0 <= i < after.len() ==> is_white_space(#[trigger] after[i]),
        core.len() > 0 ==> !is_white_space(core[0]) && !is_white_space(core[core.len() - 1]),
    ensures
        core.len() == 0 ==> server_list(before + core + after).len() == 0,
        core.len() > 0 && core[0] != '"' ==> server_list(before + core + after) == seq![core],
        core.len() > 0 && core[0] == '"' ==> server_list(before + core + after) == string_list(
            encode_utf8(core),
        ),
{
    law_trimming(before, core, after);
}

// --- The life of a session ---

/// While a session is not finished and attempts are left, the next one in the
/// order of the plan is handed out and counted; otherwise nothing is handed out
/// and nothing changes.
pub proof fn law_next_attempt(s: SessionView)
    ensures
        !s.done && s.current < s.attempts.len() ==> {
            &&& s.next() == Some(s.attempts[s.current as int])
            &&& s.advanced().current == s.current + 1
        },
        s.done || s.current >= s.attempts.len() ==> {
            &&& s.next() is None
            &&& s.advanced().current == s.current
        },
        s.advanced().attempts == s.attempts,
        s.advanced().algo == s.algo,
        s.advanced().hash == s.hash,
        s.advanced().done == s.done,
        s.advanced().success == s.success,
{
}

/// Success finishes a session and is remembered; a partial download finishes it
/// without success. Nothing else changes.
pub proof fn law_reports(s: SessionView)
    ensures
        s.succeeding().done,
        s.succeeding().success,
        s.tainted().done,
        s.tainted().success == s.success,
        s.succeeding().attempts == s.attempts && s.tainted().attempts == s.attempts,
        s.succeeding().current == s.current && s.tainted().current == s.current,
        s.succeeding().algo == s.algo && s.tainted().algo == s.algo,
        s.succeeding().hash == s.hash && s.tainted().hash == s.hash,
{
}

/// The end of an attempt is a success where the content was verified, a partial
/// download where it was not and bytes were written, and else goes unnoticed.
pub proof fn law_end_of_an_attempt(s: SessionView, verified: bool, bytes_written: nat)
    ensures
        verified ==> s.ended(verified, bytes_written) == s.succeeding(),
        !verified && bytes_written > 0 ==> s.ended(verified, bytes_written) == s.tainted(),
        !verified && bytes_written == 0 ==> s.ended(verified, bytes_written) == s,
{
}

} // verus!
