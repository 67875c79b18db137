use vstd::prelude::*;
use vstd::string::StringSliceAdditionalSpecFns;

verus! {

/// A request to subscribe to a set of stream topics, as the exchange's
/// websocket API expects it.
pub struct Subscription {
    pub method: String,
    pub params: Vec<String>,
    pub id: String,
}

/// An incremental depth update pushed over the stream. Field names follow
/// the wire shape of the exchange.
#[allow(non_snake_case)]
pub struct BookDepthUpdate {
    /// event type
    pub e: String,
    /// event time
    pub E: u64,
    /// transaction time
    pub T: u64,
    /// symbol
    pub s: String,
    /// first update id in this event
    pub U: u64,
    /// final update id in this event
    pub u: u64,
    /// final update id of the previous event on this stream
    pub pu: u64,
    /// bid level updates
    pub b: Vec<LevelApi>,
    /// ask level updates
    pub a: Vec<LevelApi>,
}

/// A full book snapshot as the request/response API hands it back.
pub struct FullBook {
    pub last_update_id: u64,
    pub bids: Vec<LevelApi>,
    pub asks: Vec<LevelApi>,
}

/// One price level as the exchange encodes it: price and quantity as
/// decimal text.
pub struct LevelApi {
    pub price: String,
    pub quantity: String,
}

/// What kind of stream frame arrived, judged from the marker tokens the
/// exchange puts in each frame's text.
#[derive(Clone, Copy, Debug, PartialEq, Eq, Structural)]
pub enum TypeOfUpdate {
    AggTrade,
    MD,
    Ticker,
    Other,
}

/// Whether `needle` occurs contiguously somewhere in `haystack`.
pub open spec fn contains_token(haystack: Seq<u8>, needle: Seq<u8>) -> bool {
    exists|i: int|
        0 <= i <= haystack.len() - needle.len() && #[trigger] haystack.subrange(
            i,
            i + needle.len(),
        ) == needle
}

/// The bytes of `"id"`, the marker of a request acknowledgement.
pub open spec fn token_id() -> Seq<u8> {
    seq![105u8, 100u8]
}

/// The bytes of `"depthUpdate"`, the marker of an incremental depth frame.
pub open spec fn token_depth_update() -> Seq<u8> {
    seq![100u8, 101u8, 112u8, 116u8, 104u8, 85u8, 112u8, 100u8, 97u8, 116u8, 101u8]
}

/// The bytes of `"bookTicker"`, the marker of a best-bid/ask ticker frame.
pub open spec fn token_book_ticker() -> Seq<u8> {
    seq![98u8, 111u8, 111u8, 107u8, 84u8, 105u8, 99u8, 107u8, 101u8, 114u8]
}

/// The bytes of `"aggTrade"`, the marker of an aggregate trade frame.
pub open spec fn token_agg_trade() -> Seq<u8> {
    seq![97u8, 103u8, 103u8, 84u8, 114u8, 97u8, 100u8, 101u8]
}

/// How a frame's text is classified, by the first marker token found:
/// an acknowledgement marker wins, then the depth, ticker and trade markers;
/// anything else is unrecognized and harmless.
pub open spec fn classify_frame(text: Seq<u8>) -> TypeOfUpdate {
    if contains_token(text, token_id()) {
        TypeOfUpdate::Other
    } else if contains_token(text, token_depth_update()) {
        TypeOfUpdate::MD
    } else if contains_token(text, token_book_ticker()) {
        TypeOfUpdate::Ticker
    } else if contains_token(text, token_agg_trade()) {
        TypeOfUpdate::AggTrade
    } else {
        TypeOfUpdate::Other
    }
}

/// Whether `needle` matches the bytes of `haystack` starting at `at`.
fn matches_at(haystack: &[u8], needle: &[u8], at: usize) -> (r: bool)
    requires
        at + needle@.len() <= haystack@.len(),
    ensures
        r == (haystack@.subrange(at as int, at + needle@.len()) == needle@),
{
    let n = needle.len();
    let h = haystack.len();
    let mut j: usize = 0;
    while j < n
        invariant
            0 <= j <= n == needle@.len(),
            h == haystack@.len(),
            at + n <= h,
            forall|w: int| 0 <= w < j ==> haystack@[at + w] == needle@[w],
        decreases n - j,
    {
        if haystack[at + j] != needle[j] {
            proof {
                assert(haystack@.subrange(at as int, at + needle@.len())[j as int] == haystack@[at
                    + j]);
            }
            return false;
        }
        j += 1;
    }
    proof {
        assert(haystack@.subrange(at as int, at + needle@.len()) =~= needle@);
    }
    true
}

/// Whether `needle` occurs contiguously somewhere in `haystack`, by a scan
/// over every start position.
fn contains_subslice(haystack: &[u8], needle: &[u8]) -> (r: bool)
    ensures
        r == contains_token(haystack@, needle@),
{
    let h = haystack.len();
    let n = needle.len();
    if n > h {
        return false;
    }
    if n == 0 {
        proof {
            assert(haystack@.subrange(0, 0 + needle@.len() as int) =~= needle@);
        }
        return true;
    }
    let mut i: usize = 0;
    while i <= h - n
        invariant
            1 <= n <= h == haystack@.len(),
            n == needle@.len(),
            0 <= i <= h - n + 1,
            forall|j: int|
                0 <= j < i ==> #[trigger] haystack@.subrange(j, j + needle@.len()) != needle@,
        decreases h - n + 1 - i,
    {
        if matches_at(haystack, needle, i) {
            return true;
        }
        i += 1;
    }
    false
}

/// Classifies one stream frame from its text, by the marker tokens the
/// exchange puts in each frame kind.
pub fn message_type(text: &str) -> (r: TypeOfUpdate)
    ensures
        r == classify_frame(text.spec_bytes()),
{
    let b = text.as_bytes();
    let mut needle: Vec<u8> = Vec::new();

    // "id"
    needle.push(105);
    needle.push(100);
    proof {
        assert(needle@ =~= token_id());
    }
    if contains_subslice(b, needle.as_slice()) {
        return TypeOfUpdate::Other;
    }

    // "depthUpdate"
    needle.clear();
    needle.push(100);
    needle.push(101);
    needle.push(112);
    needle.push(116);
    needle.push(104);
    needle.push(85);
    needle.push(112);
    needle.push(100);
    needle.push(97);
    needle.push(116);
    needle.push(101);
    proof {
        assert(needle@ =~= token_depth_update());
    }
    if contains_subslice(b, needle.as_slice()) {
        return TypeOfUpdate::MD;
    }

    // "bookTicker"
    needle.clear();
    needle.push(98);
    needle.push(111);
    needle.push(111);
    needle.push(107);
    needle.push(84);
    needle.push(105);
    needle.push(99);
    needle.push(107);
    needle.push(101);
    needle.push(114);
    proof {
        assert(needle@ =~= token_book_ticker());
    }
    if contains_subslice(b, needle.as_slice()) {
        return TypeOfUpdate::Ticker;
    }

    // "aggTrade"
    needle.clear();
    needle.push(97);
    needle.push(103);
    needle.push(103);
    needle.push(84);
    needle.push(114);
    needle.push(97);
    needle.push(100);
    needle.push(101);
    proof {
        assert(needle@ =~= token_agg_trade());
    }
    if contains_subslice(b, needle.as_slice()) {
        return TypeOfUpdate::AggTrade;
    }

    TypeOfUpdate::Other
}

/// Relies on `String::push_str`: appends the given slice onto the end of
/// the string.
#[verifier::external_body]
fn push_str(s: &mut String, piece: &str)
    ensures
        final(s)@ == old(s)@ + piece@,
{
    s.push_str(piece)
}

/// The stream topic `"<symbol>@<channel>"`.
fn topic(symbol: &str, channel: &str) -> (r: String)
    ensures
        r@ == symbol@ + "@"@ + channel@,
{
    let mut t = symbol.to_owned();
    push_str(&mut t, "@");
    push_str(&mut t, channel);
    t
}

/// The subscribe request for one instrument: the incremental depth topic the
/// engine consumes, and the aggregate-trade and best-bid/ask topics that are
/// accepted but produce no mutation yet.
pub fn subscription_for(symbol: &str, id: String) -> (r: Subscription)
    ensures
        r.method@ == "SUBSCRIBE"@,
        r.params@.len() == 3,
        r.params@[0]@ == symbol@ + "@"@ + "depth"@,
        r.params@[1]@ == symbol@ + "@"@ + "aggTrade"@,
        r.params@[2]@ == symbol@ + "@"@ + "bookTicker"@,
        r.id == id,
{
    let mut params: Vec<String> = Vec::new();
    params.push(topic(symbol, "depth"));
    params.push(topic(symbol, "aggTrade"));
    params.push(topic(symbol, "bookTicker"));
    Subscription { method: "SUBSCRIBE".to_owned(), params, id }
}

} // verus!
