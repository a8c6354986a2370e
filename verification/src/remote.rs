//! The remote script client boundary: building the script-execution request
//! and decoding its response body down to the JSON text of the tagged-value
//! tree.
//!
//! The request embeds a fixed script source and a JSON argument block, each
//! base64-encoded. The response body is a base64 blob wrapped in quote
//! characters; unwrapping, decoding and UTF-8 conversion happen here, and any
//! failure among them collapses into one "no data" outcome, exactly as the
//! caller treats a transport failure.

use vstd::prelude::*;
use vstd::string::StrSliceExecFns;
use vstd::string::StringExecFns;
use vstd::string::StringSliceAdditionalSpecFns;
use vstd::utf8::decode_utf8;
use vstd::utf8::encode_utf8;
use vstd::utf8::valid_utf8;

use base64::Engine;

use crate::model::flatten_spec;
use crate::model::FlattenedItem;
use crate::model::Root;

verus! {

/// What the standard base64 encoding of a byte sequence is. Named only:
/// the trusted wrappers below relate it to the outside engine.
pub uninterp spec fn base64_of(bytes: Seq<u8>) -> Seq<char>;

/// What the standard base64 decoding of a text returns: the bytes, or
/// nothing when the text is not well-formed base64.
pub uninterp spec fn base64_decode_of(s: Seq<char>) -> Option<Seq<u8>>;

/// Relies on base64's `STANDARD` engine `encode`, applied to the string's
/// UTF-8 bytes: the text returned depends on those bytes alone. The engine
/// sizes its buffer as four thirds of the input, which cannot overflow for
/// any slice a process can hold.
#[verifier::external_body]
fn b64_encode(s: &str) -> (r: String)
    ensures
        r@ == base64_of(s.spec_bytes()),
{
    base64::engine::general_purpose::STANDARD.encode(s.as_bytes())
}

/// Relies on base64's `STANDARD` engine `decode`, applied to the string's
/// UTF-8 bytes: success and the bytes returned depend on the text alone;
/// which malformation was found is collapsed away.
#[verifier::external_body]
fn b64_decode(s: &str) -> (r: Option<Vec<u8>>)
    ensures
        match r {
            Some(v) => base64_decode_of(s@) == Some(v@),
            None => base64_decode_of(s@) is None,
        },
{
    match base64::engine::general_purpose::STANDARD.decode(s.as_bytes()) {
        Ok(v) => Some(v),
        Err(_) => None,
    }
}

/// Relies on `String::from_utf8` (std): returns the text whose UTF-8
/// encoding is exactly the given bytes, and fails exactly on bytes that are
/// not valid UTF-8.
#[verifier::external_body]
fn utf8_string(bytes: Vec<u8>) -> (r: Option<String>)
    ensures
        match r {
            Some(s) => valid_utf8(bytes@) && s@ == decode_utf8(bytes@),
            None => !valid_utf8(bytes@),
        },
{
    match String::from_utf8(bytes) {
        Ok(s) => Some(s),
        Err(_) => None,
    }
}

/// The characters the response unwrapping strips as blank space.
pub open spec fn wire_space(c: char) -> bool {
    c == ' ' || c == '\n' || c == '\r' || c == '\t'
}

/// The quote character wrapping the response blob.
pub open spec fn is_quote(c: char) -> bool {
    c == '"'
}

/// The text with its leading quote characters removed.
pub open spec fn trim_front_quotes(s: Seq<char>) -> Seq<char>
    decreases s.len(),
{
    if s.len() > 0 && is_quote(s.first()) {
        trim_front_quotes(s.drop_first())
    } else {
        s
    }
}

/// The text with its trailing quote characters removed.
pub open spec fn trim_back_quotes(s: Seq<char>) -> Seq<char>
    decreases s.len(),
{
    if s.len() > 0 && is_quote(s.last()) {
        trim_back_quotes(s.drop_last())
    } else {
        s
    }
}

/// The text with its leading blank space removed.
pub open spec fn trim_front_space(s: Seq<char>) -> Seq<char>
    decreases s.len(),
{
    if s.len() > 0 && wire_space(s.first()) {
        trim_front_space(s.drop_first())
    } else {
        s
    }
}

/// The text with its trailing blank space removed.
pub open spec fn trim_back_space(s: Seq<char>) -> Seq<char>
    decreases s.len(),
{
    if s.len() > 0 && wire_space(s.last()) {
        trim_back_space(s.drop_last())
    } else {
        s
    }
}

/// The response body with the wrapping quotes stripped from both ends, then
/// blank space stripped from both ends: the base64 text to decode.
pub open spec fn unwrapped_body(body: Seq<char>) -> Seq<char> {
    trim_back_space(trim_front_space(trim_back_quotes(trim_front_quotes(body))))
}

/// Whether the character counts as blank space for the unwrapping.
fn is_wire_space(c: char) -> (r: bool)
    ensures
        r == wire_space(c),
{
    c == ' ' || c == '\n' || c == '\r' || c == '\t'
}

/// The quote-and-space unwrapping of the response body, as a slice of it.
#[verifier::rlimit(60)]
fn trimmed_slice<'a>(body: &'a str) -> (r: &'a str)
    ensures
        r@ == unwrapped_body(body@),
{
    let ghost s0 = body@;
    let n = body.unicode_len();
    let mut a: usize = 0;
    let mut b: usize = n;
    proof {
        assert(s0.subrange(0, n as int) =~= s0);
    }
    while a < b && body.get_char(a) == '"'
        invariant
            0 <= a <= b == n == s0.len(),
            s0 == body@,
            trim_front_quotes(s0) == trim_front_quotes(s0.subrange(a as int, b as int)),
        decreases b - a,
    {
        proof {
            let sub = s0.subrange(a as int, b as int);
            assert(sub.len() > 0 && is_quote(sub.first()));
            assert(sub.drop_first() =~= s0.subrange(a as int + 1, b as int));
            assert(trim_front_quotes(sub) == trim_front_quotes(sub.drop_first()));
        }
        a = a + 1;
    }
    let ghost s1 = trim_front_quotes(s0);
    proof {
        let sub = s0.subrange(a as int, b as int);
        assert(!(sub.len() > 0 && is_quote(sub.first())));
        assert(s1 == sub);
    }
    while b > a && body.get_char(b - 1) == '"'
        invariant
            0 <= a <= b <= n == s0.len(),
            s0 == body@,
            s1 == trim_front_quotes(s0),
            trim_back_quotes(s1) == trim_back_quotes(s0.subrange(a as int, b as int)),
        decreases b,
    {
        proof {
            let sub = s0.subrange(a as int, b as int);
            assert(sub.len() > 0 && is_quote(sub.last()));
            assert(sub.drop_last() =~= s0.subrange(a as int, b as int - 1));
            assert(trim_back_quotes(sub) == trim_back_quotes(sub.drop_last()));
        }
        b = b - 1;
    }
    let ghost s2 = trim_back_quotes(s1);
    proof {
        let sub = s0.subrange(a as int, b as int);
        assert(!(sub.len() > 0 && is_quote(sub.last())));
        assert(s2 == sub);
    }
    while a < b && is_wire_space(body.get_char(a))
        invariant
            0 <= a <= b <= n == s0.len(),
            s0 == body@,
            s2 == trim_back_quotes(trim_front_quotes(s0)),
            trim_front_space(s2) == trim_front_space(s0.subrange(a as int, b as int)),
        decreases b - a,
    {
        proof {
            let sub = s0.subrange(a as int, b as int);
            assert(sub.len() > 0 && wire_space(sub.first()));
            assert(sub.drop_first() =~= s0.subrange(a as int + 1, b as int));
            assert(trim_front_space(sub) == trim_front_space(sub.drop_first()));
        }
        a = a + 1;
    }
    let ghost s3 = trim_front_space(s2);
    proof {
        let sub = s0.subrange(a as int, b as int);
        assert(!(sub.len() > 0 && wire_space(sub.first())));
        assert(s3 == sub);
    }
    while b > a && is_wire_space(body.get_char(b - 1))
        invariant
            0 <= a <= b <= n == s0.len(),
            s0 == body@,
            s3 == trim_front_space(trim_back_quotes(trim_front_quotes(s0))),
            trim_back_space(s3) == trim_back_space(s0.subrange(a as int, b as int)),
        decreases b,
    {
        proof {
            let sub = s0.subrange(a as int, b as int);
            assert(sub.len() > 0 && wire_space(sub.last()));
            assert(sub.drop_last() =~= s0.subrange(a as int, b as int - 1));
            assert(trim_back_space(sub) == trim_back_space(sub.drop_last()));
        }
        b = b - 1;
    }
    proof {
        let sub = s0.subrange(a as int, b as int);
        assert(!(sub.len() > 0 && wire_space(sub.last())));
        assert(unwrapped_body(body@) == sub);
    }
    body.substring_char(a, b)
}

/// The source of the script the request executes on the remote node.
pub open spec fn user_script_source() -> Seq<char> {
    "
import NonFungibleToken from 0x631e88ae7f1d7c20
import MetaLootNFT from 0xceed54f46d4b1942

// Return the NFTs owned by account 0x01.
access(all)
fun main(address: Address): [&{NonFungibleToken.NFT}] {
    // Get the public account object for the specified address
    let nftOwner = getAccount(address)

    // Find the public Receiver capability for their Collection and borrow it
    let collectionRef = nftOwner.capabilities.borrow<&{NonFungibleToken.Collection}>(
            MetaLootNFT.CollectionPublicPath
    ) ?? panic(\"The account \".concat(address.toString()).concat(\" does not have a NonFungibleToken Collection at \")
                .concat(MetaLootNFT.CollectionPublicPath.toString())
                .concat(\". The account must initialize their account with this collection first!\"))

    // Get the IDs of the NFTs owned by the account
    let nftIDs = collectionRef.getIDs()

    // Create an array to store references to the NFTs
    var nfts: [&{NonFungibleToken.NFT}] = []

    // Iterate over the IDs and get each NFT reference
    for id in nftIDs {
        let nftRef: &{NonFungibleToken.NFT} = collectionRef.borrowNFT(id)
            ?? panic(\"Could not borrow NFT with id \".concat(id.toString()))
        nfts.append(nftRef)
    }
    return nfts
}
    "@
}

/// The JSON argument block naming the account address.
pub open spec fn script_arguments_json(address: Seq<char>) -> Seq<char> {
    "{\"type\":\"Address\",\"value\":\""@ + address + "\"}"@
}

/// The request body for one script execution: the script source and the
/// argument block, each base64-encoded over its UTF-8 bytes.
pub open spec fn user_script_request(address: Seq<char>) -> Seq<char> {
    "{\"script\":\""@ + base64_of(encode_utf8(user_script_source()))
        + "\",\"arguments\":[\""@ + base64_of(encode_utf8(script_arguments_json(address)))
        + "\"]}"@
}

/// Builds the script-execution request body for one account address.
pub fn get_user_script(address: String) -> (r: String)
    ensures
        r@ == user_script_request(address@),
{
    let script: &str = "
import NonFungibleToken from 0x631e88ae7f1d7c20
import MetaLootNFT from 0xceed54f46d4b1942

// Return the NFTs owned by account 0x01.
access(all)
fun main(address: Address): [&{NonFungibleToken.NFT}] {
    // Get the public account object for the specified address
    let nftOwner = getAccount(address)

    // Find the public Receiver capability for their Collection and borrow it
    let collectionRef = nftOwner.capabilities.borrow<&{NonFungibleToken.Collection}>(
            MetaLootNFT.CollectionPublicPath
    ) ?? panic(\"The account \".concat(address.toString()).concat(\" does not have a NonFungibleToken Collection at \")
                .concat(MetaLootNFT.CollectionPublicPath.toString())
                .concat(\". The account must initialize their account with this collection first!\"))

    // Get the IDs of the NFTs owned by the account
    let nftIDs = collectionRef.getIDs()

    // Create an array to store references to the NFTs
    var nfts: [&{NonFungibleToken.NFT}] = []

    // Iterate over the IDs and get each NFT reference
    for id in nftIDs {
        let nftRef: &{NonFungibleToken.NFT} = collectionRef.borrowNFT(id)
            ?? panic(\"Could not borrow NFT with id \".concat(id.toString()))
        nfts.append(nftRef)
    }
    return nfts
}
    ";
    proof {
        assert(script@ == user_script_source());
    }
    let script_b64 = b64_encode(script);
    let mut arguments = String::from_str("{\"type\":\"Address\",\"value\":\"");
    arguments.append(address.as_str());
    arguments.append("\"}");
    proof {
        assert(arguments@ =~= script_arguments_json(address@));
    }
    let arguments_b64 = b64_encode(arguments.as_str());
    let mut out = String::from_str("{\"script\":\"");
    out.append(script_b64.as_str());
    out.append("\",\"arguments\":[\"");
    out.append(arguments_b64.as_str());
    out.append("\"]}");
    proof {
        assert(out@ =~= user_script_request(address@));
    }
    out
}

/// Unwraps and decodes a script-execution response body down to the UTF-8
/// JSON text it carries. Fails — uniformly, without distinguishing the
/// stage — when the unwrapped text is not well-formed base64 or its bytes
/// are not valid UTF-8.
pub fn decode_script_response(body: &str) -> (r: Option<String>)
    ensures
        ({
            let t = unwrapped_body(body@);
            match base64_decode_of(t) {
                None => r is None,
                Some(bytes) => match r {
                    Some(s) => valid_utf8(bytes) && s@ == decode_utf8(bytes),
                    None => !valid_utf8(bytes),
                },
            }
        }),
{
    let t = trimmed_slice(body);
    match b64_decode(t) {
        None => None,
        Some(bytes) => utf8_string(bytes),
    }
}

/// Flattens every resource of a decoded response root, in order.
pub fn flatten_all(root: &Root) -> (r: Vec<FlattenedItem>)
    ensures
        r@.len() == root.value@.len(),
        forall|i: int|
            0 <= i < r@.len() ==> (#[trigger] r@[i])@ == flatten_spec(
                root.value@[i].value.fields@,
            ),
{
    let mut items: Vec<FlattenedItem> = Vec::new();
    let n = root.value.len();
    let mut i: usize = 0;
    while i < n
        invariant
            n == root.value@.len(),
            i <= n,
            items@.len() == i,
            forall|j: int|
                0 <= j < i ==> (#[trigger] items@[j])@ == flatten_spec(
                    root.value@[j].value.fields@,
                ),
        decreases n - i,
    {
        items.push(root.value[i].value.flatten());
        i = i + 1;
    }
    items
}

} // verus!
