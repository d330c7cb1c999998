//! Helpers for addressing a generation server's API: base-URL
//! normalization, endpoint construction and lazy scalar parsing. The HTTP
//! traffic itself lives outside this crate.

use crate::text::chars_vec;
use crate::text::has_suffix;
use crate::text::has_suffix_exec;
use crate::text::parse_i64_chars;
use crate::text::parse_u32_chars;
use crate::text::string_from_chars;
use crate::text::subrange_vec;
use crate::text::trim;
use crate::text::trim_seq;
use crate::text::digits_val;
use crate::text::i64_str_val;
use crate::text::is_i64_str;
use crate::text::is_u32_str;
use crate::text::unsigned_body;
use vstd::prelude::*;

verus! {

/// Outcome of probing the generation server.
pub struct ForgeStatus {
    pub ok: bool,
    pub message: String,
}

/// Outcome of sending one generation request.
pub struct ForgeSendResult {
    pub ok: bool,
    pub images: Vec<String>,
    pub info: Option<String>,
    pub message: String,
}

/// The stored fields a request payload is built from.
pub struct ForgePayloadBuildInput {
    pub prompt: String,
    pub negative_prompt: String,
    pub steps: Option<String>,
    pub sampler: Option<String>,
    pub cfg_scale: Option<String>,
    pub seed: Option<String>,
    pub width: Option<u32>,
    pub height: Option<u32>,
}

/// Trailing `/` runs removed.
pub open spec fn strip_slashes(s: Seq<char>) -> Seq<char>
    decreases s.len(),
{
    if s.len() > 0 && s.last() == '/' {
        strip_slashes(s.drop_last())
    } else {
        s
    }
}

fn strip_slashes_exec(v: &Vec<char>) -> (r: Vec<char>)
    ensures
        r@ == strip_slashes(v@),
{
    let mut b: usize = v.len();
    proof {
        assert(b as int == v@.len());
        assert(v@.take(b as int) =~= v@);
    }
    while b > 0 && v[b - 1] == '/'
        invariant
            0 <= b <= v@.len(),
            strip_slashes(v@) == strip_slashes(v@.take(b as int)),
        decreases b,
    {
        proof {
            assert(v@.take(b as int).drop_last() =~= v@.take(b - 1));
        }
        b -= 1;
    }
    proof {
        if b > 0 {
            assert(strip_slashes(v@.take(b as int)) == v@.take(b as int));
        }
        assert(v@.take(v@.len() as int) =~= v@);
    }
    subrange_vec(v, 0, b)
}

/// One normalization step: a trailing `/docs`, `/sdapi/v1` or `/sdapi`
/// suffix removed, then trailing slashes; `None` when no suffix applies.
pub open spec fn strip_api_suffix(s: Seq<char>) -> Option<Seq<char>> {
    if has_suffix(s, "/docs"@) {
        Some(strip_slashes(s.take(s.len() - "/docs"@.len())))
    } else if has_suffix(s, "/sdapi/v1"@) {
        Some(strip_slashes(s.take(s.len() - "/sdapi/v1"@.len())))
    } else if has_suffix(s, "/sdapi"@) {
        Some(strip_slashes(s.take(s.len() - "/sdapi"@.len())))
    } else {
        None
    }
}

/// The fully normalized base URL: trimmed, trailing slashes dropped, then
/// API suffixes stripped repeatedly until none is left or the text runs
/// out.
pub open spec fn normalize_base_spec(s: Seq<char>) -> Seq<char>
    decreases s.len(),
{
    if s.len() == 0 {
        s
    } else {
        match strip_api_suffix(s) {
            Some(t) => {
                if t.len() < s.len() {
                    normalize_base_spec(t)
                } else {
                    t
                }
            },
            None => s,
        }
    }
}

/// Normalizes a base URL by stripping `/docs`, `/sdapi/v1` and `/sdapi`
/// suffixes (and trailing slashes) until a bare origin remains.
pub fn normalize_base_url(base_url: &str) -> (r: String)
    ensures
        r@ == normalize_base_spec(strip_slashes(trim_seq(base_url@))),
{
    let mut cur = strip_slashes_exec(&trim(&chars_vec(base_url)));
    loop
        invariant_except_break
            normalize_base_spec(strip_slashes(trim_seq(base_url@))) == normalize_base_spec(cur@),
        ensures
            cur@ == normalize_base_spec(strip_slashes(trim_seq(base_url@))),
        decreases cur@.len(),
    {
        if cur.len() == 0 {
            break ;
        }
        let ghost pre = cur@;
        let docs = chars_vec("/docs");
        let sdapi_v1 = chars_vec("/sdapi/v1");
        let sdapi = chars_vec("/sdapi");
        let stripped: Option<Vec<char>> = if has_suffix_exec(&cur, &docs) {
            proof {
                assert("/docs"@.len() <= cur@.len());
                assert(docs.len() <= cur.len());
            }
            Some(strip_slashes_exec(&subrange_vec(&cur, 0, cur.len() - docs.len())))
        } else if has_suffix_exec(&cur, &sdapi_v1) {
            proof {
                assert("/sdapi/v1"@.len() <= cur@.len());
                assert(sdapi_v1.len() <= cur.len());
            }
            Some(strip_slashes_exec(&subrange_vec(&cur, 0, cur.len() - sdapi_v1.len())))
        } else if has_suffix_exec(&cur, &sdapi) {
            proof {
                assert("/sdapi"@.len() <= cur@.len());
                assert(sdapi.len() <= cur.len());
            }
            Some(strip_slashes_exec(&subrange_vec(&cur, 0, cur.len() - sdapi.len())))
        } else {
            None
        };
        match stripped {
            Some(next) => {
                proof {
                    assert(pre.take(pre.len() - "/docs"@.len()) =~= pre.subrange(
                        0,
                        pre.len() - "/docs"@.len(),
                    ));
                    assert(pre.take(pre.len() - "/sdapi/v1"@.len()) =~= pre.subrange(
                        0,
                        pre.len() - "/sdapi/v1"@.len(),
                    ));
                    assert(pre.take(pre.len() - "/sdapi"@.len()) =~= pre.subrange(
                        0,
                        pre.len() - "/sdapi"@.len(),
                    ));
                    assert(strip_api_suffix(pre) == Some(next@));
                    assert(next@.len() < pre.len()) by {
                        reveal_strlit("/docs");
                        reveal_strlit("/sdapi/v1");
                        reveal_strlit("/sdapi");
                        lemma_strip_slashes_len(pre, next@);
                    }
                }
                cur = next;
            },
            None => {
                break ;
            },
        }
    }
    string_from_chars(&cur)
}

/// Stripping never lengthens a sequence.
proof fn lemma_strip_shorter(s: Seq<char>)
    ensures
        strip_slashes(s).len() <= s.len(),
    decreases s.len(),
{
    if s.len() > 0 && s.last() == '/' {
        lemma_strip_shorter(s.drop_last());
    }
}

proof fn lemma_strip_slashes_len(pre: Seq<char>, next: Seq<char>)
    requires
        strip_api_suffix(pre) == Some(next),
        "/docs"@.len() >= 1,
        "/sdapi/v1"@.len() >= 1,
        "/sdapi"@.len() >= 1,
    ensures
        next.len() < pre.len(),
{
    if has_suffix(pre, "/docs"@) {
        lemma_strip_shorter(pre.take(pre.len() - "/docs"@.len()));
    } else if has_suffix(pre, "/sdapi/v1"@) {
        lemma_strip_shorter(pre.take(pre.len() - "/sdapi/v1"@.len()));
    } else {
        lemma_strip_shorter(pre.take(pre.len() - "/sdapi"@.len()));
    }
}

/// Leading `/` runs removed.
pub open spec fn strip_lead_slashes(s: Seq<char>) -> Seq<char>
    decreases s.len(),
{
    if s.len() > 0 && s[0] == '/' {
        strip_lead_slashes(s.skip(1))
    } else {
        s
    }
}

/// The full endpoint URL: the normalized base, the API prefix, and the
/// endpoint path with leading slashes dropped.
pub open spec fn endpoint_spec(base: Seq<char>, endpoint: Seq<char>) -> Seq<char> {
    normalize_base_spec(strip_slashes(trim_seq(base))) + "/sdapi/v1/"@ + strip_lead_slashes(
        endpoint,
    )
}

/// Builds an endpoint URL without duplicating the API prefix.
pub fn build_sdapi_endpoint(base_url: &str, endpoint: &str) -> (r: String)
    ensures
        r@ == endpoint_spec(base_url@, endpoint@),
{
    let normalized = normalize_base_url(base_url);
    let ep = chars_vec(endpoint);
    let mut a: usize = 0;
    proof {
        assert(ep@.skip(a as int) =~= ep@);
    }
    while a < ep.len() && ep[a] == '/'
        invariant
            0 <= a <= ep@.len(),
            strip_lead_slashes(ep@) == strip_lead_slashes(ep@.skip(a as int)),
        decreases ep.len() - a,
    {
        proof {
            assert(ep@.skip(a as int).skip(1) =~= ep@.skip(a + 1));
        }
        a += 1;
    }
    proof {
        assert(strip_lead_slashes(ep@.skip(a as int)) == ep@.skip(a as int));
    }
    let mut out = chars_vec(normalized.as_str());
    crate::text::append_vec(&mut out, &chars_vec("/sdapi/v1/"));
    crate::text::append_vec(&mut out, &subrange_vec(&ep, a, ep.len()));
    proof {
        assert(ep@.subrange(a as int, ep@.len() as int) =~= ep@.skip(a as int));
        assert(out@ =~= endpoint_spec(base_url@, endpoint@));
    }
    string_from_chars(&out)
}

/// Parses an optional stored scalar as a `u32`, exactly as std accepts it.
pub fn parse_u32(value: Option<&str>) -> (r: Option<u32>)
    ensures
        match value {
            Some(v) => {
                (r is Some <==> is_u32_str(trim_seq(v@))) && (r matches Some(x) ==> x
                    == digits_val(unsigned_body(trim_seq(v@))))
            },
            None => r is None,
        },
{
    match value {
        Some(v) => parse_u32_chars(&trim(&chars_vec(v))),
        None => None,
    }
}

/// Parses an optional stored scalar as an `i64`, exactly as std accepts
/// it.
pub fn parse_i64(value: Option<&str>) -> (r: Option<i64>)
    ensures
        match value {
            Some(v) => {
                (r is Some <==> is_i64_str(trim_seq(v@))) && (r matches Some(x) ==> x
                    == i64_str_val(trim_seq(v@)))
            },
            None => r is None,
        },
{
    match value {
        Some(v) => parse_i64_chars(&trim(&chars_vec(v))),
        None => None,
    }
}

/// A trimmed non-empty text, if present.
pub fn parse_optional_text(value: Option<&str>) -> (r: Option<String>)
    ensures
        match value {
            Some(v) => {
                if trim_seq(v@).len() > 0 {
                    r matches Some(s) && s@ == trim_seq(v@)
                } else {
                    r is None
                }
            },
            None => r is None,
        },
{
    match value {
        Some(v) => {
            let t = trim(&chars_vec(v));
            if t.len() > 0 {
                Some(string_from_chars(&t))
            } else {
                None
            }
        },
        None => None,
    }
}

} // verus!
