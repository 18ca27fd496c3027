//! The decoder boundary: from encoded text to a symbol stream.
//!
//! Input arrives as plain text, hexadecimal or base64; the decoded
//! values are then transcribed into an alphabet-indexed stream, each
//! value replaced by the rank of its first appearance.  The stream the
//! engine sees therefore consists of small consecutive codes starting
//! at zero, whatever the source alphabet was.

use base64::Engine;
use vstd::prelude::*;
use vstd::string::StrSliceExecFns;

verus! {

/// Why transcription failed.
#[derive(Debug, PartialEq, Eq)]
pub enum TranscribeError {
    /// The encoding tag is none of the three recognized values.
    InvalidEncoding,
    /// The hexadecimal or base64 decode step failed; the payload is
    /// the decoder's own message, surfaced verbatim.
    Decode(String),
}

/// Is `c` an ASCII hexadecimal digit, of either case?
pub open spec fn is_hex_digit(c: char) -> bool {
    (48 <= c as int && c as int <= 57) || (97 <= c as int && c as int <= 102) || (65 <= c as int
        && c as int <= 70)
}

/// Numeric value of a hexadecimal digit.
pub open spec fn hex_val(c: char) -> int {
    if 48 <= c as int && c as int <= 57 {
        c as int - 48
    } else if 65 <= c as int && c as int <= 70 {
        c as int - 55
    } else {
        c as int - 87
    }
}

/// A well-formed hexadecimal string: even length, hex digits only.
pub open spec fn valid_hex(s: Seq<char>) -> bool {
    s.len() % 2 == 0 && forall|k: int| 0 <= k < s.len() ==> is_hex_digit(#[trigger] s[k])
}

/// The bytes a well-formed hexadecimal string denotes, two digits per
/// byte, high nibble first.
pub open spec fn hex_bytes(s: Seq<char>) -> Seq<u8> {
    Seq::new((s.len() / 2) as nat, |i: int| (hex_val(s[2 * i]) * 16 + hex_val(s[2 * i + 1])) as u8)
}

/// What the base64 decoder returns: `None` where it rejects the input.
/// The outcome depends on the input characters alone.
pub uninterp spec fn b64_decoded(s: Seq<char>) -> Option<Seq<u8>>;

/// Relies on base16ct's mixed-case hex decoder `decode_vec`: it
/// returns the decoded bytes exactly when the input has even length
/// and holds hexadecimal digits of either case only, and an error
/// rendered as text otherwise.  The crate checks bytes where this
/// contract speaks of characters; the two agree, since an input whose
/// characters are all hex digits is ASCII (so bytes and characters
/// coincide), and any other input is rejected under both readings.
#[verifier::external_body]
fn hex_decode(input: &str) -> (r: Result<Vec<u8>, String>)
    ensures
        r is Ok <==> valid_hex(input@),
        r is Ok ==> r->Ok_0@ == hex_bytes(input@),
{
    base16ct::mixed::decode_vec(input).map_err(|e| e.to_string())
}

/// Relies on base64's standard-alphabet engine `decode`: the outcome
/// is a function of the input characters alone (named `b64_decoded`),
/// and the decoded output is never longer than the input (four input
/// symbols decode to three bytes).
#[verifier::external_body]
fn b64_decode(input: &str) -> (r: Result<Vec<u8>, String>)
    ensures
        r is Ok <==> b64_decoded(input@) is Some,
        r is Ok ==> r->Ok_0@ == b64_decoded(input@)->Some_0,
        r is Ok ==> r->Ok_0@.len() <= input@.len(),
{
    base64::prelude::BASE64_STANDARD.decode(input).map_err(|e| e.to_string())
}

/// Relies on `str`'s `PartialEq`: two string slices compare equal
/// exactly when their characters do.
#[verifier::external_body]
fn str_eq(a: &str, b: &str) -> (r: bool)
    ensures
        r == (a@ == b@),
{
    a == b
}

/// The distinct symbols of `data`, in order of first appearance.
pub open spec fn seen_seq(data: Seq<u32>) -> Seq<u32>
    decreases data.len(),
{
    if data.len() == 0 {
        Seq::empty()
    } else {
        let s = seen_seq(data.drop_last());
        if s.contains(data.last()) {
            s
        } else {
            s.push(data.last())
        }
    }
}

/// Position of `x` in `s`; a single position when the elements of `s`
/// are distinct.
pub open spec fn idx_of(s: Seq<u32>, x: u32) -> int {
    choose|i: int| 0 <= i < s.len() && s[i] == x
}

/// The transcription of `data`: each symbol replaced by the rank of
/// its first appearance.
pub open spec fn codes_of(data: Seq<u32>) -> Seq<u32>
    decreases data.len(),
{
    if data.len() == 0 {
        Seq::empty()
    } else {
        let prefix = data.drop_last();
        let s = seen_seq(prefix);
        let code = if s.contains(data.last()) {
            idx_of(s, data.last()) as u32
        } else {
            s.len() as u32
        };
        codes_of(prefix).push(code)
    }
}

/// The characters of a text input, as symbol values.
pub open spec fn char_symbols(s: Seq<char>) -> Seq<u32> {
    Seq::new(s.len(), |i: int| s[i] as u32)
}

/// The bytes of a decoded input, as symbol values.
pub open spec fn byte_symbols(b: Seq<u8>) -> Seq<u32> {
    Seq::new(b.len(), |i: int| b[i] as u32)
}

/// The first-appearance sequence has distinct elements and never
/// outgrows the data.
proof fn lemma_seen_distinct(data: Seq<u32>)
    ensures
        seen_seq(data).len() <= data.len(),
        forall|a: int, b: int|
            0 <= a < b < seen_seq(data).len() ==> seen_seq(data)[a] != seen_seq(data)[b],
    decreases data.len(),
{
    if data.len() > 0 {
        lemma_seen_distinct(data.drop_last());
        let s = seen_seq(data.drop_last());
        if !s.contains(data.last()) {
            assert(forall|a: int| 0 <= a < s.len() ==> s[a] != data.last());
        }
    }
}

/// Transcribe a symbol stream: each symbol becomes the rank of its
/// first appearance, so the result ranges over `0 .. d` for `d`
/// distinct symbols, in order of discovery.
pub fn to_codes(data: &Vec<u32>) -> (r: Vec<u32>)
    requires
        data@.len() < 0x1_0000_0000,
    ensures
        r@ == codes_of(data@),
{
    let n = data.len();
    let mut seen: Vec<u32> = Vec::new();
    let mut out: Vec<u32> = Vec::new();
    let mut i: usize = 0;
    while i < n
        invariant
            i <= n,
            n == data@.len(),
            n < 0x1_0000_0000,
            seen@ == seen_seq(data@.take(i as int)),
            out@ == codes_of(data@.take(i as int)),
        decreases n - i,
    {
        let x = data[i];
        proof {
            assert(data@.take(i as int + 1).drop_last() =~= data@.take(i as int));
            assert(data@.take(i as int + 1).last() == data@[i as int]);
            lemma_seen_distinct(data@.take(i as int));
            assert(data@.take(i as int).len() == i);
        }
        let klen = seen.len();
        let mut pos: usize = klen;
        let mut k: usize = 0;
        while k < klen
            invariant
                k <= klen,
                klen == seen@.len(),
                pos == klen || (pos < klen && seen@[pos as int] == x),
                pos == klen ==> forall|k2: int| 0 <= k2 < k ==> seen@[k2] != x,
            decreases klen - k,
        {
            if seen[k] == x {
                if pos == klen {
                    pos = k;
                }
            }
            k = k + 1;
        }
        if pos < klen {
            proof {
                assert(seen@.contains(x));
                let ci = idx_of(seen@, x);
                assert(0 <= ci < seen@.len() && seen@[ci] == x);
                assert(ci == pos as int);
            }
            out.push(pos as u32);
        } else {
            proof {
                assert(forall|k2: int| 0 <= k2 < seen@.len() ==> seen@[k2] != x);
                assert(!seen@.contains(x));
            }
            out.push(klen as u32);
            seen.push(x);
        }
        i = i + 1;
    }
    proof {
        assert(data@.take(n as int) =~= data@);
    }
    out
}

/// Decode `input` as text, hexadecimal or base64 according to `fmt`
/// (one of `"UTF8"`, `"HEX"`, `"BASE64"`), then transcribe the decoded
/// values into an alphabet-indexed symbol stream.  Any other tag is
/// rejected before the input is looked at; a hexadecimal input is
/// accepted exactly when it is even-length and all hex digits.
pub fn transcribe(input: &str, fmt: &str) -> (r: Result<Vec<u32>, TranscribeError>)
    requires
        input@.len() < 0x1_0000_0000,
    ensures
        fmt@ == "UTF8"@ ==> r is Ok && r->Ok_0@ == codes_of(char_symbols(input@)),
        fmt@ == "HEX"@ ==> {
            &&& (r is Ok <==> valid_hex(input@))
            &&& (valid_hex(input@) ==> r->Ok_0@ == codes_of(byte_symbols(hex_bytes(input@))))
            &&& (!valid_hex(input@) ==> r->Err_0 is Decode)
        },
        fmt@ == "BASE64"@ ==> {
            &&& (r is Ok <==> b64_decoded(input@) is Some)
            &&& (b64_decoded(input@) is Some ==> r->Ok_0@ == codes_of(
                byte_symbols(b64_decoded(input@)->Some_0),
            ))
            &&& (b64_decoded(input@) is None ==> r->Err_0 is Decode)
        },
        fmt@ != "UTF8"@ && fmt@ != "HEX"@ && fmt@ != "BASE64"@ ==> r == Err::<
            Vec<u32>,
            TranscribeError,
        >(TranscribeError::InvalidEncoding),
{
    proof {
        // Reveal the three tags, so that the branches below are known
        // to be mutually exclusive.
        reveal_strlit("UTF8");
        reveal_strlit("HEX");
        reveal_strlit("BASE64");
        assert("UTF8"@.len() == 4);
        assert("HEX"@.len() == 3);
        assert("BASE64"@.len() == 6);
    }
    if str_eq(fmt, "UTF8") {
        let n = input.unicode_len();
        let mut syms: Vec<u32> = Vec::new();
        let mut i: usize = 0;
        while i < n
            invariant
                i <= n,
                n == input@.len(),
                syms@ == char_symbols(input@).take(i as int),
            decreases n - i,
        {
            let c = input.get_char(i);
            syms.push(c as u32);
            proof {
                assert(syms@ =~= char_symbols(input@).take(i as int + 1));
            }
            i = i + 1;
        }
        proof {
            assert(char_symbols(input@).take(n as int) =~= char_symbols(input@));
        }
        Ok(to_codes(&syms))
    } else if str_eq(fmt, "HEX") {
        match hex_decode(input) {
            Ok(bytes) => {
                let syms = bytes_to_symbols(&bytes);
                Ok(to_codes(&syms))
            },
            Err(msg) => Err(TranscribeError::Decode(msg)),
        }
    } else if str_eq(fmt, "BASE64") {
        match b64_decode(input) {
            Ok(bytes) => {
                let syms = bytes_to_symbols(&bytes);
                Ok(to_codes(&syms))
            },
            Err(msg) => Err(TranscribeError::Decode(msg)),
        }
    } else {
        Err(TranscribeError::InvalidEncoding)
    }
}

/// Widen decoded bytes into symbol values.
fn bytes_to_symbols(bytes: &Vec<u8>) -> (r: Vec<u32>)
    ensures
        r@ == byte_symbols(bytes@),
{
    let n = bytes.len();
    let mut syms: Vec<u32> = Vec::new();
    let mut i: usize = 0;
    while i < n
        invariant
            i <= n,
            n == bytes@.len(),
            syms@ == byte_symbols(bytes@).take(i as int),
        decreases n - i,
    {
        syms.push(bytes[i] as u32);
        proof {
            assert(syms@ =~= byte_symbols(bytes@).take(i as int + 1));
        }
        i = i + 1;
    }
    proof {
        assert(byte_symbols(bytes@).take(n as int) =~= byte_symbols(bytes@));
    }
    syms
}

} // verus!
