//! Turns raw link strings into absolute, length-bounded addresses.

use vstd::prelude::*;
use vstd::string::StrSliceExecFns;

verus! {

/// Why a raw link could not be turned into an address.
#[derive(Clone, Copy, Debug, PartialEq, Eq, Structural)]
pub enum ResolutionError {
    /// The candidate address exceeds the configured length bound.
    TooLong,
    /// The link is neither an absolute URL nor a reference that joins
    /// against the base address.
    Malformed,
}

/// What `url::Url::parse` returns on the given characters: the normalized
/// serialization of the absolute URL, or nothing where parsing fails.
pub uninterp spec fn parsed_url(s: Seq<char>) -> Option<Seq<char>>;

/// What the `url` crate returns for a reference joined against a base:
/// the normalized serialization of the joined URL, or nothing where the
/// base does not parse or the reference does not join against it.
pub uninterp spec fn joined_url(base: Seq<char>, rel: Seq<char>) -> Option<Seq<char>>;

/// Relies on `url::Url::parse`: a deterministic parse of an absolute URL,
/// handed back as its normalized serialization. The clause on the result
/// itself relies on the crate's own invariant that a URL's serialization
/// parses back to that same serialization (`check_invariants` in `url`).
#[verifier::external_body]
fn parse_absolute(s: &String) -> (r: Option<String>)
    ensures
        (match r {
            Some(a) => parsed_url(s@) == Some(a@) && parsed_url(a@) == Some(a@),
            None => parsed_url(s@) is None,
        }),
{
    match url::Url::parse(s.as_str()) {
        Ok(u) => Some(String::from(u)),
        Err(_) => None,
    }
}

/// Relies on `url::Url::parse` and `url::Url::join`: parses the base and
/// joins the reference against it, handing back the normalized
/// serialization. The clause on the result itself relies on the same
/// serialization round-trip invariant as `parse_absolute`.
#[verifier::external_body]
fn join_absolute(base: &String, rel: &String) -> (r: Option<String>)
    ensures
        (match r {
            Some(a) => joined_url(base@, rel@) == Some(a@) && parsed_url(a@) == Some(a@),
            None => joined_url(base@, rel@) is None,
        }),
{
    match url::Url::parse(base.as_str()) {
        Ok(b) => match b.join(rel.as_str()) {
            Ok(u) => Some(String::from(u)),
            Err(_) => None,
        },
        Err(_) => None,
    }
}

/// The address a raw link stands for against a base: the link itself when
/// it parses as an absolute URL, else the link joined against the base.
pub open spec fn candidate_of(raw: Seq<char>, base: Seq<char>) -> Option<Seq<char>> {
    if parsed_url(raw) is Some {
        parsed_url(raw)
    } else {
        joined_url(base, raw)
    }
}

/// The outcome of resolving `raw` against `base` under the length bound
/// `max`: the candidate address when there is one of acceptable length.
pub open spec fn resolve_ok(raw: Seq<char>, base: Seq<char>, max: nat) -> Option<Seq<char>> {
    match candidate_of(raw, base) {
        Some(c) => if c.len() <= max {
            Some(c)
        } else {
            None
        },
        None => None,
    }
}

/// Turns a possibly-relative link into an absolute address: accepts the
/// link itself when it is absolute, otherwise joins it against `base`;
/// either way the result must not exceed `max_url_length` characters.
pub fn resolve(raw: &String, base: &String, max_url_length: usize) -> (r: Result<
    String,
    ResolutionError,
>)
    ensures
        (r matches Ok(a) ==> resolve_ok(raw@, base@, max_url_length as nat) == Some(a@)),
        (r matches Ok(a) ==> a@.len() <= max_url_length as nat),
        r is Err ==> resolve_ok(raw@, base@, max_url_length as nat) is None,
        r == Err::<String, ResolutionError>(ResolutionError::Malformed) <==> candidate_of(
            raw@,
            base@,
        ) is None,
        (r matches Ok(a) ==> parsed_url(a@) == Some(a@)),
{
    let candidate = match parse_absolute(raw) {
        Some(a) => Some(a),
        None => join_absolute(base, raw),
    };
    match candidate {
        Some(a) => {
            if a.as_str().unicode_len() <= max_url_length {
                Ok(a)
            } else {
                Err(ResolutionError::TooLong)
            }
        },
        None => Err(ResolutionError::Malformed),
    }
}

/// Validates and normalizes the starting address of a run: the seed must
/// itself parse as an absolute URL and obey the length bound. Any failure
/// here is the one fatal error of a crawl.
pub fn normalize_seed(s: &String, max_url_length: usize) -> (r: Result<String, ResolutionError>)
    ensures
        (r matches Ok(a) ==> parsed_url(s@) == Some(a@) && a@.len() <= max_url_length as nat
            && parsed_url(a@) == Some(a@)),
        r == Err::<String, ResolutionError>(ResolutionError::Malformed) <==> parsed_url(s@) is None,
        (r == Err::<String, ResolutionError>(ResolutionError::TooLong) ==> (parsed_url(s@) matches
        Some(c) && c.len() > max_url_length as nat)),
{
    match parse_absolute(s) {
        Some(a) => {
            if a.as_str().unicode_len() <= max_url_length {
                Ok(a)
            } else {
                Err(ResolutionError::TooLong)
            }
        },
        None => Err(ResolutionError::Malformed),
    }
}

/// Resolution is idempotent on absolute addresses: a string that the URL
/// parser hands back unchanged resolves to itself against any base,
/// subject to the length bound.
pub proof fn lemma_resolve_idempotent(raw: Seq<char>, base: Seq<char>, max: nat)
    ensures
        parsed_url(raw) == Some(raw) && raw.len() <= max ==> resolve_ok(raw, base, max) == Some(
            raw,
        ),
{
}

} // verus!
