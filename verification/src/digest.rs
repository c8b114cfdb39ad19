use vstd::prelude::*;
use vstd::slice::slice_to_vec;
use vstd::string::StrSliceExecFns;
use vstd::utf8::encode_utf8;
use crate::model::{Backend, FingerprintError, ParsedObject, result_chars, wf_object};
use crate::raw::{raw_finalize, raw_render};
use crate::tokens::{compose_tokens, object_tokens, Token, TokenView, views_of};
use crypto::digest::Digest;

verus! {

/// The bytes one token feeds to a byte-stream digest: text as UTF-8,
/// byte payloads as they are.
pub open spec fn token_bytes(t: TokenView) -> Seq<u8> {
    match t {
        TokenView::Text(s) => encode_utf8(s),
        TokenView::Bytes(b) => b,
    }
}

/// The whole stream's bytes, in token order.
pub open spec fn stream_bytes(ts: Seq<TokenView>) -> Seq<u8>
    decreases ts.len(),
{
    if ts.len() == 0 {
        seq![]
    } else {
        stream_bytes(ts.drop_last()) + token_bytes(ts.last())
    }
}

/// The hexadecimal SHA-1 digest of a byte stream.
pub uninterp spec fn sha1_hex_chars(data: Seq<u8>) -> Seq<char>;

/// Relies on crypto::sha1::Sha1 through crypto::digest::Digest::input
/// and Digest::result_str: the rendered digest depends on the absorbed
/// bytes alone.
#[verifier::external_body]
fn sha1_hex(data: &[u8]) -> (r: String)
    ensures
        r@ == sha1_hex_chars(data@),
{
    let mut h = crypto::sha1::Sha1::new();
    h.input(data);
    h.result_str()
}

/// Flattens the token stream to the bytes the digest absorbs.
pub fn flatten_tokens(toks: &Vec<Token>) -> (r: Vec<u8>)
    ensures
        r@ == stream_bytes(views_of(toks@)),
{
    let ghost tviews = views_of(toks@);
    let mut out: Vec<u8> = Vec::new();
    proof {
        assert(tviews.take(0) =~= Seq::<TokenView>::empty());
        assert(out@ =~= stream_bytes(tviews.take(0)));
    }
    let mut i: usize = 0;
    while i < toks.len()
        invariant
            i <= toks@.len(),
            tviews == views_of(toks@),
            tviews.len() == toks@.len(),
            out@ == stream_bytes(tviews.take(i as int)),
        decreases toks@.len() - i,
    {
        proof {
            assert(tviews[i as int] == toks@[i as int]@);
        }
        let ghost prev = out@;
        match &toks[i] {
            Token::Text(s) => {
                let mut bs = s.as_str().as_bytes_vec();
                out.append(&mut bs);
                proof {
                    assert(out@ == prev + encode_utf8(s@));
                }
            },
            Token::Bytes(b) => {
                let mut bs = slice_to_vec(b.as_slice());
                out.append(&mut bs);
                proof {
                    assert(out@ == prev + b@);
                }
            },
        }
        proof {
            assert(tviews.take(i as int + 1).drop_last() =~= tviews.take(i as int));
            assert(tviews.take(i as int + 1).last() == tviews[i as int]);
            assert(out@ == stream_bytes(tviews.take(i as int + 1)));
        }
        i += 1;
    }
    proof {
        assert(tviews.take(tviews.len() as int) =~= tviews);
    }
    out
}

/// What one object's fingerprint run must produce: the first stage
/// error, or the chosen backend's rendering of the canonical stream.
pub open spec fn spec_fingerprint(o: ParsedObject, backend: Backend) -> Result<
    Seq<char>,
    FingerprintError,
> {
    match object_tokens(o) {
        Err(e) => Err(e),
        Ok(ts) => match backend {
            Backend::Crypto => Ok(sha1_hex_chars(stream_bytes(ts))),
            Backend::Raw => raw_render(ts),
        },
    }
}

/// Fingerprints one parsed object with a fresh accumulator: composes
/// the canonical token stream and folds it with the chosen backend.
pub fn fingerprint_object(o: &ParsedObject, backend: Backend) -> (r: Result<
    String,
    FingerprintError,
>)
    requires
        wf_object(*o),
    ensures
        result_chars(r) == spec_fingerprint(*o, backend),
{
    let toks = match compose_tokens(o) {
        Ok(ts) => ts,
        Err(e) => {
            return Err(e);
        },
    };
    match backend {
        Backend::Crypto => {
            let data = flatten_tokens(&toks);
            let d = sha1_hex(data.as_slice());
            Ok(d)
        },
        Backend::Raw => raw_finalize(&toks),
    }
}

} // verus!
