//! The content-coding token of `Transfer-Encoding` / `Accept-Encoding`:
//! a closed set of well-known codings extended by verbatim extension text.

use vstd::prelude::*;
use vstd::string::*;
use crate::chars::str_eq;

verus! {

/// Mathematical form of a content-coding token: a well-known coding, or an
/// extension token carried verbatim as its character sequence. The wildcard
/// `*` is the extension token with that one-character spelling.
pub enum EncodingView {
    Chunked,
    Brotli,
    Gzip,
    Deflate,
    Compress,
    Identity,
    Trailers,
    Ext(Seq<char>),
}

/// Canonical wire spelling of a coding.
pub open spec fn coding_name(e: EncodingView) -> Seq<char> {
    match e {
        EncodingView::Chunked => "chunked"@,
        EncodingView::Brotli => "br"@,
        EncodingView::Gzip => "gzip"@,
        EncodingView::Deflate => "deflate"@,
        EncodingView::Compress => "compress"@,
        EncodingView::Identity => "identity"@,
        EncodingView::Trailers => "trailers"@,
        EncodingView::Ext(s) => s,
    }
}

/// Whether `s` is the spelling of a well-known coding. The wildcard `*` is
/// not among these: it stays an extension token.
pub open spec fn is_known_name(s: Seq<char>) -> bool {
    ||| s == "chunked"@
    ||| s == "br"@
    ||| s == "deflate"@
    ||| s == "gzip"@
    ||| s == "compress"@
    ||| s == "identity"@
    ||| s == "trailers"@
}

/// Decoding of one `codings` token: a case-sensitive match against the
/// well-known spellings; any other text is kept verbatim as an extension.
pub open spec fn parse_coding(s: Seq<char>) -> EncodingView {
    if s == "chunked"@ {
        EncodingView::Chunked
    } else if s == "br"@ {
        EncodingView::Brotli
    } else if s == "deflate"@ {
        EncodingView::Deflate
    } else if s == "gzip"@ {
        EncodingView::Gzip
    } else if s == "compress"@ {
        EncodingView::Compress
    } else if s == "identity"@ {
        EncodingView::Identity
    } else if s == "trailers"@ {
        EncodingView::Trailers
    } else {
        EncodingView::Ext(s)
    }
}

/// The wildcard coding `*`, which stands for any coding not listed itself.
pub open spec fn wildcard() -> EncodingView {
    EncodingView::Ext("*"@)
}

/// Parsing never invents a spelling: the parsed coding's name is the very
/// text that was parsed.
pub proof fn lemma_parse_coding_name(s: Seq<char>)
    ensures
        coding_name(parse_coding(s)) == s,
{
}

/// A coding is canonical when re-parsing its spelling yields it back:
/// every well-known variant is, and an extension is unless its text is a
/// well-known spelling (such an extension is promoted by `parse_coding`).
pub open spec fn is_canonical(e: EncodingView) -> bool {
    match e {
        EncodingView::Ext(s) => !is_known_name(s),
        _ => true,
    }
}

/// Round trip: formatting a canonical coding and parsing the result yields
/// the same coding back.
pub proof fn lemma_parse_coding_round_trip(e: EncodingView)
    requires
        is_canonical(e),
    ensures
        parse_coding(coding_name(e)) == e,
{
    reveal_strlit("chunked");
    reveal_strlit("br");
    reveal_strlit("deflate");
    reveal_strlit("gzip");
    reveal_strlit("compress");
    reveal_strlit("identity");
    reveal_strlit("trailers");
    assert("chunked"@.len() == 7);
    assert("br"@.len() == 2);
    assert("deflate"@.len() == 7);
    assert("gzip"@.len() == 4);
    assert("compress"@.len() == 8);
    assert("identity"@.len() == 8);
    assert("trailers"@.len() == 8);
    assert("chunked"@[0] == 'c' && "deflate"@[0] == 'd');
    assert("compress"@[0] == 'c' && "identity"@[0] == 'i' && "trailers"@[0] == 't');
    match e {
        EncodingView::Chunked => {
            assert(parse_coding("chunked"@) == EncodingView::Chunked);
        },
        EncodingView::Brotli => {
            assert(parse_coding("br"@) == EncodingView::Brotli);
        },
        EncodingView::Gzip => {
            assert(parse_coding("gzip"@) == EncodingView::Gzip);
        },
        EncodingView::Deflate => {
            assert(parse_coding("deflate"@) == EncodingView::Deflate);
        },
        EncodingView::Compress => {
            assert(parse_coding("compress"@) == EncodingView::Compress);
        },
        EncodingView::Identity => {
            assert(parse_coding("identity"@) == EncodingView::Identity);
        },
        EncodingView::Trailers => {
            assert(parse_coding("trailers"@) == EncodingView::Trailers);
        },
        EncodingView::Ext(s) => {
            assert(parse_coding(s) == EncodingView::Ext(s));
        },
    }
}

/// Whatever `parse_coding` returns is canonical, so it survives any number
/// of further format/parse round trips.
pub proof fn lemma_parse_coding_canonical(s: Seq<char>)
    ensures
        is_canonical(parse_coding(s)),
{
}

/// A value to represent an encoding used in `Transfer-Encoding` or
/// `Accept-Encoding` headers.
#[derive(Debug)]
pub enum Encoding {
    /// The `chunked` encoding.
    Chunked,
    /// The `br` encoding.
    Brotli,
    /// The `gzip` encoding.
    Gzip,
    /// The `deflate` encoding.
    Deflate,
    /// The `compress` encoding.
    Compress,
    /// The `identity` encoding.
    Identity,
    /// The `trailers` encoding.
    Trailers,
    /// Some other encoding that is less common, can be any string.
    Ext(String),
}

impl View for Encoding {
    type V = EncodingView;

    open spec fn view(&self) -> EncodingView {
        match self {
            Encoding::Chunked => EncodingView::Chunked,
            Encoding::Brotli => EncodingView::Brotli,
            Encoding::Gzip => EncodingView::Gzip,
            Encoding::Deflate => EncodingView::Deflate,
            Encoding::Compress => EncodingView::Compress,
            Encoding::Identity => EncodingView::Identity,
            Encoding::Trailers => EncodingView::Trailers,
            Encoding::Ext(s) => EncodingView::Ext(s@),
        }
    }
}

impl Encoding {
    /// Decodes one `codings` token. This never fails: unrecognized text is
    /// always representable as an extension.
    pub fn parse(s: &str) -> (r: Encoding)
        ensures
            r@ == parse_coding(s@),
    {
        if str_eq(s, "chunked") {
            Encoding::Chunked
        } else if str_eq(s, "br") {
            Encoding::Brotli
        } else if str_eq(s, "deflate") {
            Encoding::Deflate
        } else if str_eq(s, "gzip") {
            Encoding::Gzip
        } else if str_eq(s, "compress") {
            Encoding::Compress
        } else if str_eq(s, "identity") {
            Encoding::Identity
        } else if str_eq(s, "trailers") {
            Encoding::Trailers
        } else {
            Encoding::Ext(String::from_str(s))
        }
    }

    /// The canonical wire spelling: well-known codings format to their
    /// lowercase token, extensions to their stored text unchanged.
    pub fn name(&self) -> (r: String)
        ensures
            r@ == coding_name(self@),
    {
        match self {
            Encoding::Chunked => String::from_str("chunked"),
            Encoding::Brotli => String::from_str("br"),
            Encoding::Gzip => String::from_str("gzip"),
            Encoding::Deflate => String::from_str("deflate"),
            Encoding::Compress => String::from_str("compress"),
            Encoding::Identity => String::from_str("identity"),
            Encoding::Trailers => String::from_str("trailers"),
            Encoding::Ext(s) => s.clone(),
        }
    }
}

impl Clone for Encoding {
    /// The clone denotes the same coding.
    fn clone(&self) -> (r: Encoding)
        ensures
            r@ == self@,
    {
        match self {
            Encoding::Chunked => Encoding::Chunked,
            Encoding::Brotli => Encoding::Brotli,
            Encoding::Gzip => Encoding::Gzip,
            Encoding::Deflate => Encoding::Deflate,
            Encoding::Compress => Encoding::Compress,
            Encoding::Identity => Encoding::Identity,
            Encoding::Trailers => Encoding::Trailers,
            Encoding::Ext(s) => Encoding::Ext(s.clone()),
        }
    }
}

impl PartialEq for Encoding {
    /// Two codings are equal exactly when they are the same variant, with
    /// extensions compared by their text.
    fn eq(&self, other: &Encoding) -> (r: bool) {
        match self {
            Encoding::Chunked => match other {
                Encoding::Chunked => true,
                _ => false,
            },
            Encoding::Brotli => match other {
                Encoding::Brotli => true,
                _ => false,
            },
            Encoding::Gzip => match other {
                Encoding::Gzip => true,
                _ => false,
            },
            Encoding::Deflate => match other {
                Encoding::Deflate => true,
                _ => false,
            },
            Encoding::Compress => match other {
                Encoding::Compress => true,
                _ => false,
            },
            Encoding::Identity => match other {
                Encoding::Identity => true,
                _ => false,
            },
            Encoding::Trailers => match other {
                Encoding::Trailers => true,
                _ => false,
            },
            Encoding::Ext(a) => match other {
                Encoding::Ext(b) => str_eq(a.as_str(), b.as_str()),
                _ => false,
            },
        }
    }
}

impl vstd::std_specs::cmp::PartialEqSpecImpl for Encoding {
    open spec fn obeys_eq_spec() -> bool {
        true
    }

    open spec fn eq_spec(&self, other: &Encoding) -> bool {
        self@ == other@
    }
}

} // verus!
