//! PNG metadata scanning over raw file bytes: the signature check, the
//! chunk walk that never touches pixel data, the three text-chunk
//! decoders, payload selection, and the sampled content fingerprint.

use std::io::Read;
use crate::json::JsonValue;
use crate::text::chars_vec;
use crate::text::seq_eq;
use crate::text::string_from_chars;
use crate::text::to_ascii_lower;
use crate::text::trim;
use crate::text::trim_seq;
use crate::text::u64_to_chars;
use crate::text::udec;
use crate::text::lower_seq;
use vstd::prelude::*;

verus! {

// ─────────────────────── trusted byte bridges ───────────────────────

/// Relies on String::from_utf8: `Some` exactly on valid UTF-8, decoding
/// to the characters those bytes encode.
#[verifier::external_body]
pub fn utf8_string(bytes: &Vec<u8>) -> (r: Option<String>)
    ensures
        r is Some <==> vstd::utf8::valid_utf8(bytes@),
        r matches Some(s) ==> crate::text::encode_key_bytes(s@) == bytes@,
{
    String::from_utf8(bytes.clone()).ok()
}

/// What zlib decompression yields on a byte sequence: a fixed function of
/// the input, `None` where the stream is not well-formed.
pub uninterp spec fn inflate_of(data: Seq<u8>) -> Option<Seq<u8>>;

/// Relies on flate2's ZlibDecoder: inflates a zlib stream; `None` when
/// the stream is corrupt.
#[verifier::external_body]
fn inflate(data: &Vec<u8>) -> (r: Option<Vec<u8>>)
    ensures
        match r {
            Some(out) => inflate_of(data@) == Some(out@),
            None => inflate_of(data@) is None,
        },
{
    let mut decoder = flate2::read::ZlibDecoder::new(&data[..]);
    let mut out: Vec<u8> = Vec::new();
    match decoder.read_to_end(&mut out) {
        Ok(_) => Some(out),
        Err(_) => None,
    }
}

// ─────────────────────── chunk pair decoding ───────────────────────

/// Index of the first zero byte.
pub open spec fn nul_at(d: Seq<u8>, i: int) -> Option<int>
    decreases d.len() - i,
    when 0 <= i <= d.len()
{
    if i >= d.len() {
        None
    } else if d[i] == 0 {
        Some(i)
    } else {
        nul_at(d, i + 1)
    }
}

fn find_nul(d: &Vec<u8>, from: usize) -> (r: Option<usize>)
    requires
        from <= d@.len(),
    ensures
        match r {
            Some(i) => from <= i < d@.len() && nul_at(d@, from as int) == Some(i as int),
            None => nul_at(d@, from as int) is None,
        },
{
    let mut i: usize = from;
    while i < d.len()
        invariant
            from <= i <= d@.len(),
            nul_at(d@, from as int) == nul_at(d@, i as int),
        decreases d.len() - i,
    {
        if d[i] == 0 {
            return Some(i);
        }
        i += 1;
    }
    None
}

/// The decoded characters of a byte range, when they are valid UTF-8.
pub open spec fn utf8_seq(d: Seq<u8>) -> Option<Seq<char>> {
    if vstd::utf8::valid_utf8(d) {
        Some(choose|s: Seq<char>| crate::text::encode_key_bytes(s) == d)
    } else {
        None
    }
}

proof fn lemma_utf8_seq_of(d: Seq<u8>, s: Seq<char>)
    requires
        crate::text::encode_key_bytes(s) == d,
        vstd::utf8::valid_utf8(d),
    ensures
        utf8_seq(d) == Some(s),
{
    let t = choose|t: Seq<char>| crate::text::encode_key_bytes(t) == d;
    lemma_utf8_unique(t, s);
}

/// UTF-8 encoding is injective: equal encodings come from equal texts.
proof fn lemma_utf8_unique(a: Seq<char>, b: Seq<char>)
    requires
        vstd::utf8::encode_utf8(a) == vstd::utf8::encode_utf8(b),
    ensures
        a == b,
{
    vstd::utf8::encode_utf8_decode_utf8(a);
    vstd::utf8::encode_utf8_decode_utf8(b);
}

/// A `tEXt` chunk: keyword, zero byte, Latin-free UTF-8 payload.
pub open spec fn text_pair_spec(d: Seq<u8>) -> Option<(Seq<char>, Seq<char>)> {
    match nul_at(d, 0) {
        Some(p) => {
            if 0 <= p <= d.len() {
                match (utf8_seq(d.take(p)), utf8_seq(d.skip(p + 1))) {
                    (Some(k), Some(v)) => Some((k, v)),
                    _ => None,
                }
            } else {
                None
            }
        },
        None => None,
    }
}

pub fn parse_text_chunk_pair(d: &Vec<u8>) -> (r: Option<(String, String)>)
    ensures
        match r {
            Some(kv) => text_pair_spec(d@) matches Some(m) && kv.0@ == m.0 && kv.1@ == m.1,
            None => text_pair_spec(d@) is None,
        },
{
    let p = match find_nul(d, 0) {
        Some(p) => p,
        None => {
            return None;
        },
    };
    proof {
        assert(p < d.len());
    }
    let kb = crate::text::subrange_bytes(d, 0, p);
    let vb = crate::text::subrange_bytes(d, p + 1, d.len());
    proof {
        assert(kb@ =~= d@.take(p as int));
        assert(vb@ =~= d@.skip(p + 1));
    }
    let k = match utf8_string(&kb) {
        Some(k) => k,
        None => {
            return None;
        },
    };
    let v = match utf8_string(&vb) {
        Some(v) => v,
        None => {
            return None;
        },
    };
    proof {
        lemma_utf8_seq_of(kb@, k@);
        lemma_utf8_seq_of(vb@, v@);
    }
    Some((k, v))
}

/// A `zTXt` chunk: keyword, zero byte, method byte 0, an optional second
/// zero, then a zlib stream whose inflation must be UTF-8.
pub open spec fn ztxt_pair_spec(d: Seq<u8>) -> Option<(Seq<char>, Seq<char>)> {
    match nul_at(d, 0) {
        Some(p) => {
            if p + 1 >= d.len() {
                None
            } else if d[p + 1] != 0 {
                None
            } else {
                let start = if p + 2 < d.len() && d[p + 2] == 0 {
                    p + 3
                } else {
                    p + 2
                };
                match (utf8_seq(d.take(p)), inflate_of(d.skip(start))) {
                    (Some(k), Some(raw)) => match utf8_seq(raw) {
                        Some(v) => Some((k, v)),
                        None => None,
                    },
                    _ => None,
                }
            }
        },
        None => None,
    }
}

pub fn parse_ztxt_chunk_pair(d: &Vec<u8>) -> (r: Option<(String, String)>)
    ensures
        match r {
            Some(kv) => ztxt_pair_spec(d@) matches Some(m) && kv.0@ == m.0 && kv.1@ == m.1,
            None => ztxt_pair_spec(d@) is None,
        },
{
    let p = match find_nul(d, 0) {
        Some(p) => p,
        None => {
            return None;
        },
    };
    proof {
        assert(p < d.len());
    }
    if d.len() - p <= 1 {
        proof {
            assert(p + 1 >= d@.len());
        }
        return None;
    }
    if d[p + 1] != 0 {
        return None;
    }
    let start: usize = if p + 2 < d.len() && d[p + 2] == 0 {
        p + 3
    } else {
        p + 2
    };
    let kb = crate::text::subrange_bytes(d, 0, p);
    let zb = crate::text::subrange_bytes(d, start, d.len());
    proof {
        assert(kb@ =~= d@.take(p as int));
        assert(zb@ =~= d@.skip(start as int));
    }
    let k = match utf8_string(&kb) {
        Some(k) => k,
        None => {
            return None;
        },
    };
    let raw = match inflate(&zb) {
        Some(raw) => raw,
        None => {
            return None;
        },
    };
    let v = match utf8_string(&raw) {
        Some(v) => v,
        None => {
            return None;
        },
    };
    proof {
        lemma_utf8_seq_of(kb@, k@);
        lemma_utf8_seq_of(raw@, v@);
    }
    Some((k, v))
}

/// An `iTXt` chunk: keyword, zero, compression flag and method, language
/// tag and translated keyword (both zero-terminated), then the text,
/// inflated when the flag says so.
pub open spec fn itxt_pair_spec(d: Seq<u8>) -> Option<(Seq<char>, Seq<char>)> {
    match nul_at(d, 0) {
        Some(p) => {
            if d.len() < p + 3 {
                None
            } else {
                let flag = d[p + 1];
                let method = d[p + 2];
                if flag != 0 && flag != 1 {
                    None
                } else {
                    match nul_at(d, p + 3) {
                        Some(le) => match nul_at(d, le + 1) {
                            Some(te) => {
                                let text = d.skip(te + 1);
                                match utf8_seq(d.take(p)) {
                                    Some(k) => {
                                        if flag == 1 {
                                            if method != 0 {
                                                None
                                            } else {
                                                match inflate_of(text) {
                                                    Some(raw) => match utf8_seq(raw) {
                                                        Some(v) => Some((k, v)),
                                                        None => None,
                                                    },
                                                    None => None,
                                                }
                                            }
                                        } else {
                                            match utf8_seq(text) {
                                                Some(v) => Some((k, v)),
                                                None => None,
                                            }
                                        }
                                    },
                                    None => None,
                                }
                            },
                            None => None,
                        },
                        None => None,
                    }
                }
            }
        },
        None => None,
    }
}

pub fn parse_itxt_chunk_pair(d: &Vec<u8>) -> (r: Option<(String, String)>)
    ensures
        match r {
            Some(kv) => itxt_pair_spec(d@) matches Some(m) && kv.0@ == m.0 && kv.1@ == m.1,
            None => itxt_pair_spec(d@) is None,
        },
{
    let p = match find_nul(d, 0) {
        Some(p) => p,
        None => {
            return None;
        },
    };
    proof {
        assert(p < d.len());
    }
    if d.len() - p < 3 {
        proof {
            assert(d@.len() < p + 3);
        }
        return None;
    }
    let flag = d[p + 1];
    let method = d[p + 2];
    if flag != 0 && flag != 1 {
        return None;
    }
    let le = match find_nul(d, p + 3) {
        Some(le) => le,
        None => {
            return None;
        },
    };
    let te = match find_nul(d, le + 1) {
        Some(te) => te,
        None => {
            return None;
        },
    };
    let kb = crate::text::subrange_bytes(d, 0, p);
    let text = crate::text::subrange_bytes(d, te + 1, d.len());
    proof {
        assert(kb@ =~= d@.take(p as int));
        assert(text@ =~= d@.skip(te + 1));
    }
    let k = match utf8_string(&kb) {
        Some(k) => k,
        None => {
            return None;
        },
    };
    proof {
        lemma_utf8_seq_of(kb@, k@);
    }
    if flag == 1 {
        if method != 0 {
            return None;
        }
        let raw = match inflate(&text) {
            Some(raw) => raw,
            None => {
                return None;
            },
        };
        let v = match utf8_string(&raw) {
            Some(v) => v,
            None => {
                return None;
            },
        };
        proof {
            lemma_utf8_seq_of(raw@, v@);
            }
        Some((k, v))
    } else {
        let v = match utf8_string(&text) {
            Some(v) => v,
            None => {
                return None;
            },
        };
        proof {
            lemma_utf8_seq_of(text@, v@);
            }
        Some((k, v))
    }
}

// ─────────────────────── the chunk walk ───────────────────────

/// Big-endian 32-bit value at `i`.
pub open spec fn be32(d: Seq<u8>, i: int) -> int {
    d[i] * 0x100_0000 + d[i + 1] * 0x1_0000 + d[i + 2] * 0x100 + d[i + 3]
}

pub open spec fn ty_text() -> Seq<u8> {
    seq![116u8, 69u8, 88u8, 116u8]
}

pub open spec fn ty_ztxt() -> Seq<u8> {
    seq![122u8, 84u8, 88u8, 116u8]
}

pub open spec fn ty_itxt() -> Seq<u8> {
    seq![105u8, 84u8, 88u8, 116u8]
}

pub open spec fn ty_iend() -> Seq<u8> {
    seq![73u8, 69u8, 78u8, 68u8]
}

/// The eight signature bytes every PNG starts with.
pub open spec fn png_signature() -> Seq<u8> {
    seq![137u8, 80u8, 78u8, 71u8, 13u8, 10u8, 26u8, 10u8]
}

/// What one recognized chunk contributes.
pub open spec fn chunk_pair(ty: Seq<u8>, payload: Seq<u8>) -> Seq<(Seq<char>, Seq<char>)> {
    let pair = if ty == ty_text() {
        text_pair_spec(payload)
    } else if ty == ty_ztxt() {
        ztxt_pair_spec(payload)
    } else {
        itxt_pair_spec(payload)
    };
    match pair {
        Some(kv) => seq![kv],
        None => Seq::empty(),
    }
}

/// The decoded text chunks of the byte stream from offset `i` on, in
/// order; `None` when a text chunk's payload is cut short.
pub open spec fn walk_chunks(d: Seq<u8>, i: int) -> Option<Seq<(Seq<char>, Seq<char>)>>
    decreases d.len() - i,
    when 0 <= i
{
    if i + 8 > d.len() {
        Some(Seq::empty())
    } else {
        let n = be32(d, i);
        let ty = d.subrange(i + 4, i + 8);
        if ty == ty_iend() {
            Some(Seq::empty())
        } else if ty == ty_text() || ty == ty_ztxt() || ty == ty_itxt() {
            if i + 8 + n > d.len() {
                None
            } else {
                let payload = d.subrange(i + 8, i + 8 + n);
                let next = i + 8 + n + 4;
                if next <= d.len() {
                    match walk_chunks(d, next) {
                        Some(rest) => Some(chunk_pair(ty, payload) + rest),
                        None => None,
                    }
                } else {
                    Some(chunk_pair(ty, payload))
                }
            }
        } else {
            let next = i + 8 + n + 4;
            if next <= d.len() {
                walk_chunks(d, next)
            } else {
                Some(Seq::empty())
            }
        }
    }
}

pub open spec fn pair_views(v: Seq<(String, String)>) -> Seq<(Seq<char>, Seq<char>)> {
    v.map_values(|p: (String, String)| (p.0@, p.1@))
}

/// Walks the chunk stream after the signature, decoding every `tEXt`,
/// `zTXt` and `iTXt` chunk and skipping all pixel data; `None` when a
/// text payload is cut short.
pub fn extract_text_chunks(d: &Vec<u8>) -> (r: Option<Vec<(String, String)>>)
    requires
        d@.len() >= 8,
        d@.take(8) == png_signature(),
    ensures
        match r {
            Some(pairs) => walk_chunks(d@, 8) matches Some(m) && pair_views(pairs@) == m,
            None => walk_chunks(d@, 8) is None,
        },
{
    let mut out: Vec<(String, String)> = Vec::new();
    let mut i: usize = 8;
    proof {
        assert(pair_views(out@) =~= Seq::<(Seq<char>, Seq<char>)>::empty());
    }
    loop
        invariant_except_break
            8 <= i,
            i <= d@.len() || i == 8,
            match walk_chunks(d@, i as int) {
                Some(rest) => walk_chunks(d@, 8) matches Some(m) && m == pair_views(out@) + rest,
                None => walk_chunks(d@, 8) is None,
            },
        ensures
            match walk_chunks(d@, 8) {
                Some(m) => m == pair_views(out@),
                None => false,
            },
        decreases d@.len() + 9 - i,
    {
        if i > d.len() || d.len() - i < 8 {
            proof {
                assert(i + 8 > d@.len());
                assert(walk_chunks(d@, i as int) == Some(Seq::<(Seq<char>, Seq<char>)>::empty()));
                assert(pair_views(out@) + Seq::<(Seq<char>, Seq<char>)>::empty() =~= pair_views(
                    out@,
                ));
            }
            break ;
        }
        let n: u64 = (d[i] as u64) * 0x100_0000 + (d[i + 1] as u64) * 0x1_0000 + (d[i
            + 2] as u64) * 0x100 + (d[i + 3] as u64);
        proof {
            assert(n as int == be32(d@, i as int));
        }
        let t0 = d[i + 4];
        let t1 = d[i + 5];
        let t2 = d[i + 6];
        let t3 = d[i + 7];
        let ghost ty = d@.subrange(i + 4, i + 8);
        proof {
            assert(ty.len() == 4 && ty[0] == t0 && ty[1] == t1 && ty[2] == t2 && ty[3] == t3);
        }
        let is_iend = t0 == 73 && t1 == 69 && t2 == 78 && t3 == 68;
        let is_text = t0 == 116 && t1 == 69 && t2 == 88 && t3 == 116;
        let is_ztxt = t0 == 122 && t1 == 84 && t2 == 88 && t3 == 116;
        let is_itxt = t0 == 105 && t1 == 84 && t2 == 88 && t3 == 116;
        proof {
            assert(is_iend == (ty =~= ty_iend()));
            assert(is_text == (ty =~= ty_text()));
            assert(is_ztxt == (ty =~= ty_ztxt()));
            assert(is_itxt == (ty =~= ty_itxt()));
        }
        if is_iend {
            proof {
                assert(walk_chunks(d@, i as int) == Some(Seq::<(Seq<char>, Seq<char>)>::empty()));
                assert(pair_views(out@) + Seq::<(Seq<char>, Seq<char>)>::empty() =~= pair_views(
                    out@,
                ));
            }
            break ;
        }
        if is_text || is_ztxt || is_itxt {
            if n > (d.len() - i - 8) as u64 {
                proof {
                    assert(i + 8 + be32(d@, i as int) > d@.len());
                    assert(walk_chunks(d@, i as int) is None);
                }
                return None;
            }
            let nn = n as usize;
            let payload = crate::text::subrange_bytes(d, i + 8, i + 8 + nn);
            proof {
                assert(payload@ =~= d@.subrange(i + 8, i + 8 + be32(d@, i as int)));
            }
            let pair: Option<(String, String)> = if is_text {
                parse_text_chunk_pair(&payload)
            } else if is_ztxt {
                parse_ztxt_chunk_pair(&payload)
            } else {
                parse_itxt_chunk_pair(&payload)
            };
            let ghost pre = pair_views(out@);
            match pair {
                Some(kv) => {
                    out.push(kv);
                    proof {
                        assert(pair_views(out@) =~~= pre + chunk_pair(ty, payload@));
                    }
                },
                None => {
                    proof {
                        assert(pair_views(out@) =~= pre + chunk_pair(ty, payload@));
                    }
                },
            }
            if d.len() - (i + 8 + nn) < 4 {
                proof {
                    assert(i + 8 + be32(d@, i as int) + 4 > d@.len());
                }
                break ;
            }
            i = i + 8 + nn + 4;
        } else {
            if n > (d.len() - i - 8) as u64 || d.len() - (i + 8 + n as usize) < 4 {
                proof {
                    assert(i + 8 + be32(d@, i as int) + 4 > d@.len());
                    assert(walk_chunks(d@, i as int) == Some(
                        Seq::<(Seq<char>, Seq<char>)>::empty(),
                    ));
                    assert(pair_views(out@) + Seq::<(Seq<char>, Seq<char>)>::empty()
                        =~= pair_views(out@));
                }
                break ;
            }
            i = i + 8 + n as usize + 4;
        }
    }
    Some(out)
}

// ─────────────────────── payload selection ───────────────────────

/// The value of the last chunk carrying the key; chunks overwrite
/// earlier ones of the same keyword.
pub open spec fn lookup_last(pairs: Seq<(Seq<char>, Seq<char>)>, k: Seq<char>) -> Option<Seq<char>>
    decreases pairs.len(),
{
    if pairs.len() == 0 {
        None
    } else if pairs.last().0 == k {
        Some(pairs.last().1)
    } else {
        lookup_last(pairs.drop_last(), k)
    }
}

fn lookup_chunk<'a>(pairs: &'a Vec<(String, String)>, k: &str) -> (r: Option<&'a String>)
    ensures
        match r {
            Some(v) => lookup_last(pair_views(pairs@), k@) == Some(v@),
            None => lookup_last(pair_views(pairs@), k@) is None,
        },
{
    let kv = chars_vec(k);
    let mut i: usize = pairs.len();
    proof {
        assert(pair_views(pairs@).take(i as int) =~= pair_views(pairs@));
    }
    while i > 0
        invariant
            0 <= i <= pairs@.len(),
            kv@ == k@,
            lookup_last(pair_views(pairs@), k@) == lookup_last(
                pair_views(pairs@).take(i as int),
                k@,
            ),
        decreases i,
    {
        proof {
            assert(pair_views(pairs@).take(i as int).last() == pair_views(pairs@)[i - 1]);
            assert(pair_views(pairs@).take(i as int).drop_last() =~= pair_views(pairs@).take(
                i - 1,
            ));
        }
        if seq_eq(&chars_vec(pairs[i - 1].0.as_str()), &kv) {
            return Some(&pairs[i - 1].1);
        }
        i -= 1;
    }
    None
}

pub open spec fn lookup_or_empty(pairs: Seq<(Seq<char>, Seq<char>)>, k: Seq<char>) -> Seq<char> {
    match lookup_last(pairs, k) {
        Some(v) => v,
        None => Seq::empty(),
    }
}

/// One comment field rendered as `Label: value`, appended when the field
/// is a non-empty string, a number or a boolean.
pub open spec fn comment_param(
    params: Seq<Seq<char>>,
    label: Seq<char>,
    v: Option<JsonValue>,
) -> Seq<Seq<char>> {
    match v {
        Some(JsonValue::Str(s)) => {
            if trim_seq(s@).len() > 0 {
                params.push(label + ": "@ + trim_seq(s@))
            } else {
                params
            }
        },
        Some(JsonValue::Num { text, int_val, uint_val }) => params.push(label + ": "@ + text@),
        Some(JsonValue::Bool(b)) => params.push(label + ": "@ + crate::json::bool_str(b)),
        _ => params,
    }
}

fn comment_param_exec(
    params: &mut Vec<Vec<char>>,
    label: &str,
    v: Option<&JsonValue>,
)
    ensures
        crate::text::views_of_vecs(final(params)@) == comment_param(
            crate::text::views_of_vecs(old(params)@),
            label@,
            match v {
                Some(x) => Some(*x),
                None => None,
            },
        ),
{
    let ghost pre = crate::text::views_of_vecs(params@);
    match v {
        Some(x) => {
            match x {
                JsonValue::Str(s) => {
                    let t = trim(&chars_vec(s.as_str()));
                    if t.len() > 0 {
                        let mut line = chars_vec(label);
                        crate::text::append_vec(&mut line, &chars_vec(": "));
                        crate::text::append_vec(&mut line, &t);
                        params.push(line);
                        proof {
                            assert(crate::text::views_of_vecs(params@) =~~= pre.push(label@
                                + ": "@ + trim_seq(s@)));
                        }
                    }
                },
                JsonValue::Num { text, int_val: _, uint_val: _ } => {
                    let mut line = chars_vec(label);
                    crate::text::append_vec(&mut line, &chars_vec(": "));
                    crate::text::append_vec(&mut line, &chars_vec(text.as_str()));
                    params.push(line);
                    proof {
                        assert(crate::text::views_of_vecs(params@) =~~= pre.push(label@ + ": "@
                            + text@));
                    }
                },
                JsonValue::Bool(b) => {
                    let mut line = chars_vec(label);
                    crate::text::append_vec(&mut line, &chars_vec(": "));
                    if *b {
                        crate::text::append_vec(&mut line, &chars_vec("true"));
                    } else {
                        crate::text::append_vec(&mut line, &chars_vec("false"));
                    }
                    params.push(line);
                    proof {
                        assert(crate::text::views_of_vecs(params@) =~~= pre.push(label@ + ": "@
                            + crate::json::bool_str(*b)));
                    }
                },
                _ => {},
            }
        },
        None => {},
    }
}

/// The comment chunk the compatibility synthesis parses as JSON.
pub open spec fn novelai_comment(pairs: Seq<(Seq<char>, Seq<char>)>) -> Seq<char> {
    trim_seq(
        match lookup_last(pairs, "Comment"@) {
            Some(v) => v,
            None => lookup_or_empty(pairs, "comment"@),
        },
    )
}

/// The compatibility string synthesized for one known tool: description,
/// a negative-prompt line from `uc`, and a parameter line from the
/// comment's fields, given the parsed comment document.
pub open spec fn novelai_spec(
    pairs: Seq<(Seq<char>, Seq<char>)>,
    cd: Option<JsonValue>,
) -> Option<Seq<char>> {
    if lower_seq(lookup_or_empty(pairs, "Software"@)) != "novelai"@ {
        None
    } else {
        let description = trim_seq(
            match lookup_last(pairs, "Description"@) {
                Some(v) => v,
                None => lookup_or_empty(pairs, "description"@),
            },
        );
        let comment = trim_seq(
            match lookup_last(pairs, "Comment"@) {
                Some(v) => v,
                None => lookup_or_empty(pairs, "comment"@),
            },
        );
        if description.len() == 0 && comment.len() == 0 {
            None
        } else {
            let lines0: Seq<Seq<char>> = if description.len() > 0 {
                seq![description]
            } else {
                Seq::empty()
            };
            let lines = match cd {
                Some(doc) => {
                    let de = crate::json::doc_entries(doc);
                    let lines1 = match crate::json::obj_get_spec(de, "uc"@) {
                        Some(JsonValue::Str(s)) => {
                            if trim_seq(s@).len() > 0 {
                                lines0.push("Negative prompt: "@ + trim_seq(s@))
                            } else {
                                lines0
                            }
                        },
                        _ => lines0,
                    };
                    let params = comment_param(
                        comment_param(
                            comment_param(
                                comment_param(
                                    Seq::empty(),
                                    "Steps"@,
                                    crate::json::obj_get_spec(de, "steps"@),
                                ),
                                "Sampler"@,
                                crate::json::obj_get_spec(de, "sampler"@),
                            ),
                            "CFG scale"@,
                            crate::json::obj_get_spec(de, "scale"@),
                        ),
                        "Seed"@,
                        crate::json::obj_get_spec(de, "seed"@),
                    );
                    let wo = uint_of(crate::json::obj_get_spec(de, "width"@));
                    let ho = uint_of(crate::json::obj_get_spec(de, "height"@));
                    let params2 = if wo is Some && ho is Some {
                        params.push("Size: "@ + udec(wo->0 as nat) + "x"@ + udec(ho->0 as nat))
                    } else {
                        params
                    };
                    if params2.len() > 0 {
                        lines1.push(crate::text::join_seq(params2, ", "@))
                    } else {
                        lines1
                    }
                },
                None => lines0,
            };
            if lines.len() == 0 {
                None
            } else {
                Some(crate::text::join_seq(lines, "\n"@))
            }
        }
    }
}

/// The unsigned value of a comment field, when it is one.
pub open spec fn uint_of(v: Option<JsonValue>) -> Option<u64> {
    match v {
        Some(JsonValue::Num { text, int_val, uint_val: Some(u) }) => Some(u),
        _ => None,
    }
}

fn get_uint_field(de: &Vec<(String, JsonValue)>, k: &str) -> (r: Option<u64>)
    ensures
        r == uint_of(crate::json::obj_get_spec(de@, k@)),
{
    match crate::json::obj_get(de, &chars_vec(k)) {
        Some(v) => match v {
            JsonValue::Num { text: _, int_val: _, uint_val: Some(u) } => Some(*u),
            _ => None,
        },
        None => None,
    }
}

/// Builds the compatibility string for the known tool, if the chunks are
/// its output; the comment chunk is parsed as JSON and the result is
/// exactly what that document yields.
#[verifier::rlimit(60)]
pub fn build_novelai_metadata(pairs: &Vec<(String, String)>) -> (r: Option<String>)
    ensures
        ({
            let cd = crate::json::json_of(novelai_comment(pair_views(pairs@)));
            match r {
                Some(s) => novelai_spec(pair_views(pairs@), cd) == Some(s@),
                None => novelai_spec(pair_views(pairs@), cd) is None,
            }
        }),
{
    let ghost pv = pair_views(pairs@);
    let software = match lookup_chunk(pairs, "Software") {
        Some(v) => to_ascii_lower(&chars_vec(v.as_str())),
        None => Vec::new(),
    };
    proof {
        assert(software@ =~= lower_seq(lookup_or_empty(pv, "Software"@))) by {
            if lookup_last(pv, "Software"@) is None {
                assert(lower_seq(Seq::<char>::empty()) =~= Seq::<char>::empty());
            }
        }
    }
    if !seq_eq(&software, &chars_vec("novelai")) {
        proof {
            assert(novelai_spec(pv, crate::json::json_of(novelai_comment(pv))) is None);
        }
        return None;
    }
    let description = trim(&match lookup_chunk(pairs, "Description") {
        Some(v) => chars_vec(v.as_str()),
        None => match lookup_chunk(pairs, "description") {
            Some(v) => chars_vec(v.as_str()),
            None => Vec::new(),
        },
    });
    let comment = trim(&match lookup_chunk(pairs, "Comment") {
        Some(v) => chars_vec(v.as_str()),
        None => match lookup_chunk(pairs, "comment") {
            Some(v) => chars_vec(v.as_str()),
            None => Vec::new(),
        },
    });
    proof {
        assert(comment@ == novelai_comment(pv));
    }
    if description.len() == 0 && comment.len() == 0 {
        proof {
            assert(novelai_spec(pv, crate::json::json_of(novelai_comment(pv))) is None);
        }
        return None;
    }
    let mut lines: Vec<Vec<char>> = Vec::new();
    if description.len() > 0 {
        lines.push(description);
    }
    proof {
        assert(crate::text::views_of_vecs(lines@) =~= (if trim_seq(
            match lookup_last(pv, "Description"@) {
                Some(v) => v,
                None => lookup_or_empty(pv, "description"@),
            },
        ).len() > 0 {
            seq![trim_seq(
                match lookup_last(pv, "Description"@) {
                    Some(v) => v,
                    None => lookup_or_empty(pv, "description"@),
                },
            )]
        } else {
            Seq::<Seq<char>>::empty()
        }));
    }
    let cd: Option<JsonValue> = crate::json::json_parse(string_from_chars(&comment).as_str());
    proof {
        assert(cd == crate::json::json_of(novelai_comment(pv)));
    }
    match &cd {
        Some(doc) => {
            let de: &Vec<(String, JsonValue)> = match doc {
                JsonValue::Obj(e) => e,
                _ => &Vec::new(),
            };
            proof {
                assert(de@ =~= crate::json::doc_entries(*doc));
            }
            let ghost lines0 = crate::text::views_of_vecs(lines@);
            match crate::json::obj_get(de, &chars_vec("uc")) {
                Some(v) => {
                    match v {
                        JsonValue::Str(s) => {
                            let t = trim(&chars_vec(s.as_str()));
                            if t.len() > 0 {
                                let mut line = chars_vec("Negative prompt: ");
                                crate::text::append_vec(&mut line, &t);
                                lines.push(line);
                                proof {
                                    assert(crate::text::views_of_vecs(lines@) =~~= lines0.push(
                                        "Negative prompt: "@ + trim_seq(s@),
                                    ));
                                }
                            }
                        },
                        _ => {},
                    }
                },
                None => {},
            }
            let mut params: Vec<Vec<char>> = Vec::new();
            proof {
                assert(crate::text::views_of_vecs(params@) =~= Seq::<Seq<char>>::empty());
            }
            comment_param_exec(&mut params, "Steps", crate::json::obj_get(de, &chars_vec("steps")));
            comment_param_exec(
                &mut params,
                "Sampler",
                crate::json::obj_get(de, &chars_vec("sampler")),
            );
            comment_param_exec(
                &mut params,
                "CFG scale",
                crate::json::obj_get(de, &chars_vec("scale")),
            );
            comment_param_exec(&mut params, "Seed", crate::json::obj_get(de, &chars_vec("seed")));
            let w = get_uint_field(de, "width");
            let h = get_uint_field(de, "height");
            match (w, h) {
                (Some(w), Some(h)) => {
                    let ghost prep = crate::text::views_of_vecs(params@);
                    let mut line = chars_vec("Size: ");
                    crate::text::append_vec(&mut line, &u64_to_chars(w));
                    line.push('x');
                    crate::text::append_vec(&mut line, &u64_to_chars(h));
                    params.push(line);
                    proof {
                        assert("x"@ =~= seq!['x']) by {
                            reveal_strlit("x");
                        }
                        assert(line@ =~= "Size: "@ + udec(w as nat) + "x"@ + udec(h as nat));
                        assert(crate::text::views_of_vecs(params@) =~~= prep.push("Size: "@
                            + udec(w as nat) + "x"@ + udec(h as nat)));
                    }
                },
                _ => {},
            }
            if params.len() > 0 {
                let ghost lines1 = crate::text::views_of_vecs(lines@);
                let joined = crate::text::join_with(&params, &chars_vec(", "));
                proof {
                    assert(params.deep_view() =~~= crate::text::views_of_vecs(params@));
                }
                lines.push(joined);
                proof {
                    assert(crate::text::views_of_vecs(lines@) =~~= lines1.push(
                        crate::text::join_seq(crate::text::views_of_vecs(params@), ", "@),
                    ));
                }
            }
        },
        None => {},
    }
    if lines.len() == 0 {
        proof {
            assert(novelai_spec(pv, cd) is None);
        }
        return None;
    }
    let joined = crate::text::join_with(&lines, &chars_vec("\n"));
    proof {
        assert(lines.deep_view() =~~= crate::text::views_of_vecs(lines@));
        assert(novelai_spec(pv, cd) == Some(crate::text::join_seq(
            crate::text::views_of_vecs(lines@),
            "\n"@,
        )));
    }
    Some(string_from_chars(&joined))
}

// ─────────────────────── primary payload selection ───────────────────────

/// The priority keys tried in order for the primary payload.
pub open spec fn priority_keys() -> Seq<Seq<char>> {
    seq![
        "parameters"@,
        "Parameters"@,
        "prompt"@,
        "Prompt"@,
        "Description"@,
        "description"@,
        "Comment"@,
        "comment"@,
        "workflow"@,
        "Workflow"@,
        "invokeai_metadata"@,
        "invokeai_metadata_v2"@,
    ]
}

/// The first priority key holding a non-blank payload.
pub open spec fn first_priority(pairs: Seq<(Seq<char>, Seq<char>)>, i: int) -> Option<Seq<char>>
    decreases priority_keys().len() - i,
    when 0 <= i <= priority_keys().len()
{
    if i >= priority_keys().len() {
        None
    } else {
        match lookup_last(pairs, priority_keys()[i]) {
            Some(v) => {
                if trim_seq(v).len() > 0 {
                    Some(trim_seq(v))
                } else {
                    first_priority(pairs, i + 1)
                }
            },
            None => first_priority(pairs, i + 1),
        }
    }
}

/// The longest non-blank payload, earliest on a tie.
pub open spec fn longest_payload(pairs: Seq<(Seq<char>, Seq<char>)>) -> Option<Seq<char>>
    decreases pairs.len(),
{
    if pairs.len() == 0 {
        None
    } else {
        let rest = longest_payload(pairs.drop_first());
        let head = trim_seq(pairs.first().1);
        if head.len() == 0 {
            rest
        } else {
            match rest {
                Some(b) => {
                    if b.len() > head.len() {
                        Some(b)
                    } else {
                        Some(head)
                    }
                },
                None => Some(head),
            }
        }
    }
}

/// The selected payload once the compatibility check is settled.
pub open spec fn select_with(
    pairs: Seq<(Seq<char>, Seq<char>)>,
    nv: Option<Seq<char>>,
) -> Option<Seq<char>> {
    match nv {
        Some(s) => Some(s),
        None => match first_priority(pairs, 0) {
            Some(v) => Some(v),
            None => longest_payload(pairs),
        },
    }
}

/// Picks the best payload: the compatibility string of the known tool if
/// the chunks are its output, else the first priority key, else the
/// longest non-blank payload.
pub fn select_primary_metadata(pairs: &Vec<(String, String)>) -> (r: Option<String>)
    ensures
        ({
            let nv = novelai_spec(
                pair_views(pairs@),
                crate::json::json_of(novelai_comment(pair_views(pairs@))),
            );
            match r {
                Some(s) => select_with(pair_views(pairs@), nv) == Some(s@),
                None => select_with(pair_views(pairs@), nv) is None,
            }
        }),
{
    let ghost pv = pair_views(pairs@);
    match build_novelai_metadata(pairs) {
        Some(s) => {
            return Some(s);
        },
        None => {},
    }
    let ghost cd0: Option<JsonValue> = crate::json::json_of(novelai_comment(pv));
    proof {
        assert(novelai_spec(pv, cd0) is None);
    }
    let keys = vec![
        "parameters",
        "Parameters",
        "prompt",
        "Prompt",
        "Description",
        "description",
        "Comment",
        "comment",
        "workflow",
        "Workflow",
        "invokeai_metadata",
        "invokeai_metadata_v2",
    ];
    proof {
        assert forall|q: int| 0 <= q < priority_keys().len() implies #[trigger] priority_keys()[q]
            == keys@[q]@ by {}
    }
    let mut i: usize = 0;
    while i < keys.len()
        invariant
            0 <= i <= keys@.len(),
            pv == pair_views(pairs@),
            keys@.len() == priority_keys().len(),
            cd0 == crate::json::json_of(novelai_comment(pv)),
            novelai_spec(pv, cd0) is None,
            forall|q: int| 0 <= q < priority_keys().len() ==> #[trigger] priority_keys()[q]
                == keys@[q]@,
            first_priority(pv, 0) == first_priority(pv, i as int),
        decreases keys.len() - i,
    {
        match lookup_chunk(pairs, keys[i]) {
            Some(v) => {
                let t = trim(&chars_vec(v.as_str()));
                if t.len() > 0 {
                    proof {
                        assert(first_priority(pv, i as int) == Some(trim_seq(v@)));
                        assert(select_with(pv, novelai_spec(pv, cd0)) == Some(trim_seq(v@)));
                    }
                    return Some(string_from_chars(&t));
                }
            },
            None => {},
        }
        i += 1;
    }
    let mut best: Option<Vec<char>> = None;
    let mut j: usize = pairs.len();
    while j > 0
        invariant
            0 <= j <= pairs@.len(),
            pv == pair_views(pairs@),
            cd0 == crate::json::json_of(novelai_comment(pv)),
            novelai_spec(pv, cd0) is None,
            first_priority(pv, 0) is None,
            match best {
                Some(b) => longest_payload(pv.skip(j as int)) == Some(b@),
                None => longest_payload(pv.skip(j as int)) is None,
            },
        decreases j,
    {
        j -= 1;
        proof {
            assert(pv.skip(j as int).first() == pv[j as int]);
            assert(pv.skip(j as int).drop_first() =~= pv.skip(j + 1));
        }
        let head = trim(&chars_vec(pairs[j].1.as_str()));
        if head.len() > 0 {
            best = match best {
                Some(b) => {
                    if b.len() > head.len() {
                        Some(b)
                    } else {
                        Some(head)
                    }
                },
                None => Some(head),
            };
        }
    }
    proof {
        assert(pv.skip(0) =~= pv);
        assert(select_with(pv, novelai_spec(pv, cd0)) == longest_payload(pv));
    }
    match best {
        Some(b) => Some(string_from_chars(&b)),
        None => None,
    }
}

// ─────────────────────── whole-file extraction ───────────────────────

/// The path names a PNG file: its extension compares equal to `png`
/// ignoring ASCII case.
pub open spec fn png_path(path: Seq<char>) -> bool {
    match path_extension(path) {
        Some(e) => lower_seq(e) == "png"@,
        None => false,
    }
}

/// The extension of a path: the part of the final component after its
/// last dot, absent for dotless or dot-leading names.
pub open spec fn path_extension(path: Seq<char>) -> Option<Seq<char>> {
    let name_start = match last_sep(path, path.len() as int) {
        Some(p) => p + 1,
        None => 0,
    };
    let name = path.skip(name_start);
    match last_dot(name, name.len() as int) {
        Some(q) => {
            if q > 0 {
                Some(name.skip(q + 1))
            } else {
                None
            }
        },
        None => None,
    }
}

pub open spec fn last_sep(s: Seq<char>, n: int) -> Option<int>
    decreases n,
    when 0 <= n <= s.len()
{
    if n <= 0 {
        None
    } else if s[n - 1] == '/' || s[n - 1] == '\\' {
        Some(n - 1)
    } else {
        last_sep(s, n - 1)
    }
}

pub open spec fn last_dot(s: Seq<char>, n: int) -> Option<int>
    decreases n,
    when 0 <= n <= s.len()
{
    if n <= 0 {
        None
    } else if s[n - 1] == '.' {
        Some(n - 1)
    } else {
        last_dot(s, n - 1)
    }
}

/// Whether the path can carry embedded PNG text metadata at all.
pub fn supports_png_metadata(path: &str) -> (r: bool)
    ensures
        r == png_path(path@),
{
    let pc = chars_vec(path);
    let mut n: usize = pc.len();
    while n > 0 && pc[n - 1] != '/' && pc[n - 1] != '\\'
        invariant
            0 <= n <= pc@.len(),
            last_sep(pc@, pc@.len() as int) == last_sep(pc@, n as int),
        decreases n,
    {
        n -= 1;
    }
    let name_start: usize = n;
    proof {
        if n > 0 {
            assert(last_sep(pc@, n as int) == Some(n - 1));
        }
    }
    let name = crate::text::subrange_vec(&pc, name_start, pc.len());
    proof {
        assert(name@ =~= pc@.skip(name_start as int));
    }
    let mut m: usize = name.len();
    while m > 0 && name[m - 1] != '.'
        invariant
            0 <= m <= name@.len(),
            last_dot(name@, name@.len() as int) == last_dot(name@, m as int),
        decreases m,
    {
        m -= 1;
    }
    if m <= 1 {
        proof {
            if m == 1 {
                assert(last_dot(name@, 1) == Some(0int));
            }
        }
        return false;
    }
    proof {
        assert(last_dot(name@, m as int) == Some(m - 1));
    }
    let ext = to_ascii_lower(&crate::text::subrange_vec(&name, m, name.len()));
    proof {
        assert(ext@ =~= lower_seq(name@.skip(m as int)));
    }
    seq_eq(&ext, &chars_vec("png"))
}

/// The metadata a PNG's bytes carry: the selected text-chunk payload, or
/// nothing for other file kinds, bad signatures and truncated chunks.
pub fn extract_metadata(path: &str, data: &Vec<u8>) -> (r: Option<String>)
    ensures
        !png_path(path@) ==> r is None,
        data@.len() < 8 ==> r is None,
        data@.len() >= 8 && data@.take(8) != png_signature() ==> r is None,
        png_path(path@) && data@.len() >= 8 && data@.take(8) == png_signature() ==> match (
        walk_chunks(data@, 8)) {
            Some(pairs) => ({
                let nv = novelai_spec(pairs, crate::json::json_of(novelai_comment(pairs)));
                match r {
                    Some(s) => select_with(pairs, nv) == Some(s@),
                    None => select_with(pairs, nv) is None,
                }
            }),
            None => r is None,
        },
{
    if !supports_png_metadata(path) {
        return None;
    }
    if data.len() < 8 {
        return None;
    }
    let sig_ok = data[0] == 137 && data[1] == 80 && data[2] == 78 && data[3] == 71 && data[4]
        == 13 && data[5] == 10 && data[6] == 26 && data[7] == 10;
    if !sig_ok {
        proof {
            if data@.take(8) == png_signature() {
                assert(data@.take(8)[0] == data@[0]);
                assert(data@.take(8)[1] == data@[1]);
                assert(data@.take(8)[2] == data@[2]);
                assert(data@.take(8)[3] == data@[3]);
                assert(data@.take(8)[4] == data@[4]);
                assert(data@.take(8)[5] == data@[5]);
                assert(data@.take(8)[6] == data@[6]);
                assert(data@.take(8)[7] == data@[7]);
            }
        }
        return None;
    }
    proof {
        assert(data@.take(8) =~= png_signature());
    }
    let pairs = match extract_text_chunks(data) {
        Some(pairs) => pairs,
        None => {
            return None;
        },
    };
    select_primary_metadata(&pairs)
}

// ─────────────────────── sampled fingerprint ───────────────────────

/// The little-endian bytes of a 64-bit size, as the fingerprint hashes
/// them.
pub open spec fn le64(n: u64) -> Seq<u8> {
    seq![
        (n & 0xff) as u8,
        ((n >> 8) & 0xff) as u8,
        ((n >> 16) & 0xff) as u8,
        ((n >> 24) & 0xff) as u8,
        ((n >> 32) & 0xff) as u8,
        ((n >> 40) & 0xff) as u8,
        ((n >> 48) & 0xff) as u8,
        ((n >> 56) & 0xff) as u8,
    ]
}

/// The sampled fingerprint: the hex digest, truncated to 24 digits, of
/// the file size followed by the head sample and, for larger files, the
/// tail sample.
pub open spec fn quick_hash_spec(size: u64, head: Seq<u8>, tail: Option<Seq<u8>>) -> Seq<char> {
    let hashed = match tail {
        Some(t) => le64(size) + head + t,
        None => le64(size) + head,
    };
    crate::thumbs::hex_of(crate::thumbs::sha256_of(hashed)).take(24)
}

/// How many bytes each sample reads: the whole file up to 64 KiB.
pub fn quick_hash_sample_len(file_size: u64) -> (r: u64)
    ensures
        r == if file_size < 65536 {
            file_size as int
        } else {
            65536
        },
{
    if file_size < 65536 {
        file_size
    } else {
        65536
    }
}

/// Computes the fingerprint from the size and the sampled bytes.
pub fn quick_hash_from_samples(size: u64, head: &Vec<u8>, tail: Option<&Vec<u8>>) -> (r: String)
    ensures
        r@ == quick_hash_spec(
            size,
            head@,
            match tail {
                Some(t) => Some(t@),
                None => None,
            },
        ),
{
    let mut hashed: Vec<u8> = Vec::new();
    hashed.push((size & 0xff) as u8);
    hashed.push(((size >> 8) & 0xff) as u8);
    hashed.push(((size >> 16) & 0xff) as u8);
    hashed.push(((size >> 24) & 0xff) as u8);
    hashed.push(((size >> 32) & 0xff) as u8);
    hashed.push(((size >> 40) & 0xff) as u8);
    hashed.push(((size >> 48) & 0xff) as u8);
    hashed.push(((size >> 56) & 0xff) as u8);
    proof {
        assert(hashed@ =~= le64(size));
    }
    let mut k: usize = 0;
    while k < head.len()
        invariant
            0 <= k <= head@.len(),
            hashed@ == le64(size) + head@.take(k as int),
        decreases head.len() - k,
    {
        hashed.push(head[k]);
        proof {
            assert(le64(size) + head@.take(k + 1) =~= (le64(size) + head@.take(k as int)).push(
                head@[k as int],
            ));
        }
        k += 1;
    }
    proof {
        assert(head@.take(head@.len() as int) =~= head@);
    }
    match tail {
        Some(t) => {
            let mut k: usize = 0;
            while k < t.len()
                invariant
                    0 <= k <= t@.len(),
                    hashed@ == le64(size) + head@ + t@.take(k as int),
                decreases t.len() - k,
            {
                hashed.push(t[k]);
                proof {
                    assert(le64(size) + head@ + t@.take(k + 1) =~= (le64(size) + head@ + t@.take(
                        k as int,
                    )).push(t@[k as int]));
                }
                k += 1;
            }
            proof {
                assert(t@.take(t@.len() as int) =~= t@);
            }
        },
        None => {},
    }
    let digest = crate::thumbs::sha256(&hashed);
    let hexed = crate::thumbs::hex_encode(&digest);
    proof {
        crate::thumbs::lemma_hex_len(digest@);
        assert(hexed@.len() == 64);
    }
    let head24 = crate::text::subrange_vec(&hexed, 0, 24);
    proof {
        assert(head24@ =~= hexed@.take(24));
    }
    string_from_chars(&head24)
}

} // verus!
