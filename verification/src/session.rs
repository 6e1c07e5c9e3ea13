//! The client side of the protocol as a state machine.

use rand::seq::SliceRandom;
use vstd::prelude::*;
use vstd::string::*;

use crate::algo::{
    content_hash, digest_hex_len, is_lower_hex, is_supported, law_content_hash_form,
    law_normalize_algo_idempotent, lemma_lower_hex_fixed, normalize_algo, normalize_content_hash,
    normalized_algo,
};
use crate::error::{Error, ErrorView};
use crate::hash_verifier::{HashVerifier, VerifierView};
use crate::sfv::{encode_source_urls, encoded_list, parse_fetchurl_server, server_list};
use crate::text::{texts, trim_trailing, without_trailing, AsText};

verus! {

// --- FetchAttempt ---

/// A [`FetchAttempt`] as a mathematical value.
#[verifier::ext_equal]
pub struct AttemptView {
    pub url: Seq<char>,
    pub headers: Seq<(Seq<char>, Seq<char>)>,
}

/// The header that forwards the source URLs to a server.
pub open spec fn source_header() -> Seq<char> {
    "X-Source-Urls"@
}

/// Ask a cache server for the content, and tell it where the content comes from.
pub open spec fn server_attempt(
    server: Seq<char>,
    algo: Seq<char>,
    hash: Seq<char>,
    sources: Seq<Seq<char>>,
) -> AttemptView {
    AttemptView {
        url: without_trailing(server, '/') + seq!['/'] + algo + seq!['/'] + hash,
        headers: seq![(source_header(), encoded_list(sources))],
    }
}

/// Ask a source for the content.
pub open spec fn direct_attempt(url: Seq<char>) -> AttemptView {
    AttemptView { url, headers: Seq::empty() }
}

pub open spec fn header_texts(headers: Seq<(String, String)>) -> Seq<(Seq<char>, Seq<char>)> {
    Seq::new(headers.len(), |i: int| (headers[i].0@, headers[i].1@))
}

/// A single fetch attempt, describing the URL to request and headers to set.
#[derive(Debug)]
pub struct FetchAttempt {
    url: String,
    headers: Vec<(String, String)>,
}

impl View for FetchAttempt {
    type V = AttemptView;

    closed spec fn view(&self) -> AttemptView {
        AttemptView { url: self.url@, headers: header_texts(self.headers@) }
    }
}

impl Clone for FetchAttempt {
    fn clone(&self) -> (r: Self)
        ensures
            r@ == self@,
    {
        let mut headers: Vec<(String, String)> = Vec::new();
        let mut i: usize = 0;
        while i < self.headers.len()
            invariant
                i <= self.headers@.len(),
                headers@.len() == i,
                forall|j: int|
                    0 <= j < i ==> (#[trigger] headers@[j]).0@ == self.headers@[j].0@
                        && headers@[j].1@ == self.headers@[j].1@,
            decreases self.headers@.len() - i,
        {
            headers.push((self.headers[i].0.clone(), self.headers[i].1.clone()));
            i += 1;
        }
        let r = FetchAttempt { url: self.url.clone(), headers };
        assert(r@ =~= self@);
        r
    }
}

impl FetchAttempt {
    /// The URL to make a GET request to.
    pub fn url(&self) -> (r: &str)
        ensures
            r@ == self@.url,
    {
        self.url.as_str()
    }

    /// Headers to include in the request (e.g., `X-Source-Urls`).
    pub fn headers(&self) -> (r: &[(String, String)])
        ensures
            header_texts(r@) == self@.headers,
    {
        self.headers.as_slice()
    }

    fn to_server(server: &str, algo: &str, hash: &str, source_urls: &str) -> (r: Self)
        ensures
            r@ == (AttemptView {
                url: without_trailing(server@, '/') + seq!['/'] + algo@ + seq!['/'] + hash@,
                headers: seq![(source_header(), source_urls@)],
            }),
    {
        let mut url = trim_trailing(server, '/').to_owned();
        url.push('/');
        url.append(algo);
        url.push('/');
        url.append(hash);
        let mut headers: Vec<(String, String)> = Vec::new();
        headers.push(("X-Source-Urls".to_owned(), source_urls.to_owned()));
        let r = FetchAttempt { url, headers };
        assert(r@.url =~= without_trailing(server@, '/') + seq!['/'] + algo@ + seq!['/'] + hash@);
        assert(r@.headers =~= seq![(source_header(), source_urls@)]);
        r
    }

    fn to_source(url: String) -> (r: Self)
        ensures
            r@ == direct_attempt(url@),
    {
        let r = FetchAttempt { url, headers: Vec::new() };
        assert(r@.headers =~= Seq::<(Seq<char>, Seq<char>)>::empty());
        r
    }
}

// --- FetchSession ---

/// A [`FetchSession`] as a mathematical value.
#[verifier::ext_equal]
pub struct SessionView {
    /// All attempts, in the order in which they are to be made.
    pub attempts: Seq<AttemptView>,
    /// How many of them have been handed out.
    pub current: nat,
    pub algo: Seq<char>,
    pub hash: Seq<char>,
    pub done: bool,
    pub success: bool,
}

impl SessionView {
    /// What holds of every session: its algorithm is supported, its hash is the
    /// full digest in lowercase hex, and only a finished session has succeeded.
    pub open spec fn wf(self) -> bool {
        &&& digest_hex_len(self.algo) == Some(self.hash.len())
        &&& is_lower_hex(self.hash)
        &&& self.current <= self.attempts.len()
        &&& self.success ==> self.done
    }

    /// A session that has not begun: servers first, then the sources in the order
    /// `direct`.
    pub open spec fn planned(
        servers: Seq<Seq<char>>,
        algo: Seq<char>,
        hash: Seq<char>,
        sources: Seq<Seq<char>>,
        direct: Seq<Seq<char>>,
    ) -> Self {
        SessionView {
            attempts: servers.map_values(|s: Seq<char>| server_attempt(s, algo, hash, sources))
                + direct.map_values(|u: Seq<char>| direct_attempt(u)),
            current: 0,
            algo,
            hash,
            done: false,
            success: false,
        }
    }

    /// Whether no attempt is left to hand out.
    pub open spec fn exhausted(self) -> bool {
        self.done || self.current >= self.attempts.len()
    }

    /// The next attempt, where there is one.
    pub open spec fn next(self) -> Option<AttemptView> {
        if self.exhausted() {
            None
        } else {
            Some(self.attempts[self.current as int])
        }
    }

    /// The session once its next attempt has been handed out.
    pub open spec fn advanced(self) -> Self {
        if self.exhausted() {
            self
        } else {
            SessionView { current: self.current + 1, ..self }
        }
    }

    pub open spec fn succeeding(self) -> Self {
        SessionView { done: true, success: true, ..self }
    }

    pub open spec fn tainted(self) -> Self {
        SessionView { done: true, ..self }
    }

    /// The session once an attempt has ended: content that was verified is a
    /// success, any other output taints the session, and an attempt without
    /// output changes nothing.
    pub open spec fn ended(self, verified: bool, bytes_written: nat) -> Self {
        if verified {
            self.succeeding()
        } else if bytes_written > 0 {
            self.tainted()
        } else {
            self
        }
    }
}

/// Why a session cannot be opened, if it cannot.
pub open spec fn refusal(
    algo: Seq<char>,
    hash: Seq<char>,
    sources: Seq<Seq<char>>,
) -> Option<ErrorView> {
    if sources.len() == 0 {
        Some(ErrorView::MissingSourceUrls)
    } else if digest_hex_len(normalized_algo(algo)) is None {
        Some(ErrorView::UnsupportedAlgorithm(normalized_algo(algo)))
    } else {
        match content_hash(algo, hash) {
            Err(e) => Some(e),
            Ok(_) => None,
        }
    }
}

/// The same texts, each as often, in any order.
pub open spec fn is_shuffle(a: Seq<Seq<char>>, b: Seq<Seq<char>>) -> bool {
    a.to_multiset() == b.to_multiset()
}

/// What opening a session gives: the refusal, or a session that has not begun and
/// tries the sources in some order.
pub open spec fn opened(
    r: Result<FetchSession, Error>,
    servers: Seq<Seq<char>>,
    algo: Seq<char>,
    hash: Seq<char>,
    sources: Seq<Seq<char>>,
) -> bool {
    match refusal(algo, hash, sources) {
        Some(e) => r is Err && r->Err_0@ == e,
        None => r is Ok && exists|direct: Seq<Seq<char>>| #[trigger]
            is_shuffle(direct, sources) && r->Ok_0@ == SessionView::planned(
                servers,
                normalized_algo(algo),
                content_hash(algo, hash)->Ok_0,
                sources,
                direct,
            ),
    }
}

/// `rand`'s `shuffle` (of `SliceRandom`), with the thread's generator: the
/// strings change places at random, so the list holds the same texts, each as
/// often as before. Nothing is claimed of their order.
#[verifier::external_body]
fn shuffle_urls(urls: &mut Vec<String>)
    ensures
        is_shuffle(texts(final(urls)@), texts(old(urls)@)),
{
    urls.shuffle(&mut rand::thread_rng())
}

/// Drives the fetchurl client protocol as a state machine.
///
/// Determines which URLs to try and in what order: servers first
/// (with source URLs forwarded as `X-Source-Urls`), then direct
/// source URLs in random order.
///
/// The caller iterates through attempts, makes HTTP requests with
/// their preferred library, and reports results back to the session.
pub struct FetchSession {
    attempts: Vec<FetchAttempt>,
    current: usize,
    algo: String,
    hash: String,
    done: bool,
    success: bool,
}

pub closed spec fn attempt_views(attempts: Seq<FetchAttempt>) -> Seq<AttemptView> {
    Seq::new(attempts.len(), |i: int| attempts[i]@)
}

impl View for FetchSession {
    type V = SessionView;

    closed spec fn view(&self) -> SessionView {
        SessionView {
            attempts: attempt_views(self.attempts@),
            current: self.current as nat,
            algo: self.algo@,
            hash: self.hash@,
            done: self.done,
            success: self.success,
        }
    }
}

impl FetchSession {
    #[verifier::type_invariant]
    spec fn type_inv(&self) -> bool {
        self@.wf()
    }

    /// Create a fetch session from the value of `FETCHURL_SERVER`
    /// (an RFC 8941 string list, or `None` where it is not set). For explicit
    /// server lists (tests, embedding), use [`with_servers`](Self::with_servers).
    ///
    /// - `algo`: hash algorithm name (e.g. `"sha256"`)
    /// - `hash`: expected hash in hex
    /// - `source_urls`: direct source URLs (tried after servers, in random order)
    pub fn new<U: AsText>(
        fetchurl_server: Option<&str>,
        algo: &str,
        hash: &str,
        source_urls: &[U],
    ) -> (r: Result<Self, Error>)
        ensures
            opened(
                r,
                match fetchurl_server {
                    Some(value) => server_list(value@),
                    None => Seq::empty(),
                },
                algo@,
                hash@,
                texts(source_urls@),
            ),
            r is Ok ==> r->Ok_0@.wf(),
    {
        let servers: Vec<String> = match fetchurl_server {
            Some(value) => parse_fetchurl_server(value),
            None => Vec::new(),
        };
        assert(fetchurl_server is None ==> texts(servers@) =~= Seq::<Seq<char>>::empty());
        Self::with_servers(servers.as_slice(), algo, hash, source_urls)
    }

    /// Create a fetch session with an explicit list of cache server base URLs.
    ///
    /// Same attempt order as [`new`](Self::new): servers first (with
    /// `X-Source-Urls`), then direct sources shuffled. Pass an empty `servers`
    /// slice to try only `source_urls`.
    ///
    /// - `servers`: cache base URLs ready for `/{algo}/{hash}` (trailing `/` ok)
    /// - `algo`: hash algorithm name (e.g. `"sha256"`)
    /// - `hash`: expected hash in hex
    /// - `source_urls`: direct source URLs (tried after servers, in random order)
    pub fn with_servers<S: AsText, U: AsText>(
        servers: &[S],
        algo: &str,
        hash: &str,
        source_urls: &[U],
    ) -> (r: Result<Self, Error>)
        ensures
            opened(r, texts(servers@), algo@, hash@, texts(source_urls@)),
            r is Ok ==> r->Ok_0@.wf(),
    {
        if source_urls.len() == 0 {
            return Err(Error::MissingSourceUrls);
        }
        proof {
            law_normalize_algo_idempotent(algo@);
        }
        let key = normalize_algo(algo);
        if !is_supported(key.as_str()) {
            return Err(Error::UnsupportedAlgorithm(key));
        }
        let ghost given = hash@;
        let hash = match normalize_content_hash(key.as_str(), hash) {
            Ok(h) => h,
            Err(e) => return Err(e),
        };
        proof {
            law_content_hash_form(algo@, given);
        }
        let mut direct: Vec<String> = Vec::new();
        let mut i: usize = 0;
        while i < source_urls.len()
            invariant
                i <= source_urls@.len(),
                texts(direct@) == texts(source_urls@).take(i as int),
            decreases source_urls@.len() - i,
        {
            let ghost before = texts(direct@);
            direct.push(source_urls[i].as_text().to_owned());
            i += 1;
            assert(texts(direct@) =~= before.push(texts(source_urls@)[i - 1]));
            assert(texts(direct@) =~= texts(source_urls@).take(i as int));
        }
        assert(texts(source_urls@).take(i as int) =~= texts(source_urls@));
        shuffle_urls(&mut direct);
        Ok(Self::with_order(servers, key, hash, source_urls, direct))
    }

    /// Create a fetch session for an algorithm name and a content hash in their
    /// canonical forms: servers first (with `X-Source-Urls`), then the URLs
    /// `direct` in the order given.
    pub fn with_order<S: AsText, U: AsText>(
        servers: &[S],
        algo: String,
        hash: String,
        source_urls: &[U],
        direct: Vec<String>,
    ) -> (r: Self)
        requires
            digest_hex_len(algo@) == Some(hash@.len()),
            is_lower_hex(hash@),
        ensures
            r@ == SessionView::planned(
                texts(servers@),
                algo@,
                hash@,
                texts(source_urls@),
                texts(direct@),
            ),
            r@.wf(),
    {
        let source_header = encode_source_urls(source_urls);
        let mut attempts: Vec<FetchAttempt> = Vec::new();
        let ghost plan = SessionView::planned(
            texts(servers@),
            algo@,
            hash@,
            texts(source_urls@),
            texts(direct@),
        );
        let mut i: usize = 0;
        while i < servers.len()
            invariant
                i <= servers@.len(),
                source_header@ == encoded_list(texts(source_urls@)),
                plan == SessionView::planned(
                    texts(servers@),
                    algo@,
                    hash@,
                    texts(source_urls@),
                    texts(direct@),
                ),
                attempt_views(attempts@) == plan.attempts.take(i as int),
            decreases servers@.len() - i,
        {
            let ghost before = attempt_views(attempts@);
            attempts.push(
                FetchAttempt::to_server(
                    servers[i].as_text(),
                    algo.as_str(),
                    hash.as_str(),
                    source_header.as_str(),
                ),
            );
            i += 1;
            assert(attempt_views(attempts@) =~= before.push(plan.attempts[i - 1]));
            assert(attempt_views(attempts@) =~= plan.attempts.take(i as int));
        }
        let mut k: usize = 0;
        while k < direct.len()
            invariant
                k <= direct@.len(),
                plan == SessionView::planned(
                    texts(servers@),
                    algo@,
                    hash@,
                    texts(source_urls@),
                    texts(direct@),
                ),
                attempt_views(attempts@) == plan.attempts.take(servers@.len() + k),
            decreases direct@.len() - k,
        {
            let ghost before = attempt_views(attempts@);
            attempts.push(FetchAttempt::to_source(direct[k].clone()));
            k += 1;
            assert(attempt_views(attempts@) =~= before.push(plan.attempts[servers@.len() + k - 1]));
            assert(attempt_views(attempts@) =~= plan.attempts.take(servers@.len() + k));
        }
        assert(attempt_views(attempts@) =~= plan.attempts);
        FetchSession { attempts, current: 0, algo, hash, done: false, success: false }
    }

    /// Get the next attempt to try.
    ///
    /// Returns `None` when all attempts are exhausted or the session is
    /// finished (after [`report_success`](Self::report_success) or
    /// [`report_partial`](Self::report_partial)).
    ///
    /// If the HTTP request fails without writing any bytes, just call
    /// `next_attempt()` again to try the next source.
    pub fn next_attempt(&mut self) -> (r: Option<FetchAttempt>)
        ensures
            final(self)@ == old(self)@.advanced(),
            match old(self)@.next() {
                Some(a) => r is Some && r->0@ == a,
                None => r is None,
            },
    {
        proof {
            use_type_invariant(&*self);
        }
        if self.done || self.current >= self.attempts.len() {
            return None;
        }
        let attempt = self.attempts[self.current].clone();
        self.current += 1;
        Some(attempt)
    }

    /// Report that the current attempt succeeded. Stops the session.
    pub fn report_success(&mut self)
        ensures
            final(self)@ == old(self)@.succeeding(),
    {
        proof {
            use_type_invariant(&*self);
        }
        self.done = true;
        self.success = true;
    }

    /// Report that bytes were already written to the output before a failure.
    /// Stops the session: no further attempts since the output is tainted.
    pub fn report_partial(&mut self)
        ensures
            final(self)@ == old(self)@.tainted(),
    {
        proof {
            use_type_invariant(&*self);
        }
        self.done = true;
    }

    /// Report how the current attempt ended: whether its content was verified, and
    /// how many bytes went to the output. After verified content, or any output,
    /// there is no further attempt.
    pub fn report_end(&mut self, verified: bool, bytes_written: u64)
        ensures
            final(self)@ == old(self)@.ended(verified, bytes_written as nat),
            verified || bytes_written > 0 ==> final(self)@.next() is None,
    {
        if verified {
            self.report_success();
        } else if bytes_written > 0 {
            self.report_partial();
        }
    }

    /// Whether the session completed with a successful download.
    pub fn succeeded(&self) -> (r: bool)
        ensures
            r == self@.success,
    {
        self.success
    }

    /// Create a [`HashVerifier`] wrapping the given writer.
    ///
    /// Pipe the HTTP response body through the verifier, then call
    /// [`HashVerifier::finish`] to check the hash.
    pub fn hash_verifier<W>(&self, writer: W) -> (r: HashVerifier<W>)
        ensures
            r.wf(),
            r@ == VerifierView::fresh(self@.algo, self@.hash, writer),
    {
        proof {
            use_type_invariant(self);
            lemma_lower_hex_fixed(self.hash@);
        }
        HashVerifier::new(self.algo.as_str(), self.hash.as_str(), writer)
    }
}

} // verus!
