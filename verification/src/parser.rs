//! Label tokenizer and address decoder.
//!
//! One dot-separated label classifies into exactly one [`Token`]. An
//! ordered token sequence — most specific label first — then decodes into
//! a 16-byte address over a single left-to-right pass, with a byte-granular
//! analogue of the textual IPv6 `::` compression.

use vstd::prelude::*;

use crate::handler::Error;

verus! {

/// What one label of a queried name means to the address decoder.
#[derive(Clone, Copy, PartialEq, Eq, Structural, Debug)]
pub enum Token {
    /// One decimal byte, `0` to `255`.
    Octet(u8),
    /// The compression marker `_`: a run of zero bytes of any length.
    Filler,
    /// One 16-bit group, written as four hex digits or as `x` plus up to
    /// three hex digits.
    HexBlock(u16),
    /// The label `map`: pre-seeds the IPv4-mapped prefix.
    MappedModifier,
    /// The label `local`: pre-seeds the link-local prefix.
    LocalModifier,
    /// Any other label, the zone apex suffix included; the decoder
    /// tolerates it only once the address is complete or a compression
    /// marker was seen.
    Unknown,
}

pub open spec fn is_dec_digit(c: char) -> bool {
    '0' as u32 <= c as u32 && c as u32 <= '9' as u32
}

pub open spec fn dec_digit_val(c: char) -> int {
    c as u32 - '0' as u32
}

pub open spec fn is_hex_digit(c: char) -> bool {
    is_dec_digit(c) || ('a' as u32 <= c as u32 && c as u32 <= 'f' as u32) || ('A' as u32 <= c as u32
        && c as u32 <= 'F' as u32)
}

pub open spec fn hex_digit_val(c: char) -> int {
    if is_dec_digit(c) {
        dec_digit_val(c)
    } else if 'a' as u32 <= c as u32 && c as u32 <= 'f' as u32 {
        c as u32 - 'a' as u32 + 10
    } else {
        c as u32 - 'A' as u32 + 10
    }
}

pub open spec fn all_dec_digits(s: Seq<char>) -> bool {
    forall|i: int| 0 <= i < s.len() ==> is_dec_digit(#[trigger] s[i])
}

pub open spec fn all_hex_digits(s: Seq<char>) -> bool {
    forall|i: int| 0 <= i < s.len() ==> is_hex_digit(#[trigger] s[i])
}

/// The value of a decimal digit string, most significant digit first.
pub open spec fn dec_val(s: Seq<char>) -> int
    decreases s.len(),
{
    if s.len() == 0 {
        0
    } else {
        dec_val(s.drop_last()) * 10 + dec_digit_val(s.last())
    }
}

/// The value of a hex digit string, most significant digit first.
pub open spec fn hex_val(s: Seq<char>) -> int
    decreases s.len(),
{
    if s.len() == 0 {
        0
    } else {
        hex_val(s.drop_last()) * 16 + hex_digit_val(s.last())
    }
}

/// What one label classifies to, first match wins: the three literal
/// labels, then a 1-3 digit decimal value up to 255, then exactly four hex
/// digits, then `x` followed by one to three hex digits; anything else is
/// unknown. The literal matches are exact and case-sensitive.
pub open spec fn spec_classify(s: Seq<char>) -> Token {
    if s == seq!['_'] {
        Token::Filler
    } else if s == seq!['l', 'o', 'c', 'a', 'l'] {
        Token::LocalModifier
    } else if s == seq!['m', 'a', 'p'] {
        Token::MappedModifier
    } else if 1 <= s.len() && s.len() <= 3 && all_dec_digits(s) && dec_val(s) <= 255 {
        Token::Octet(dec_val(s) as u8)
    } else if s.len() == 4 && all_hex_digits(s) {
        Token::HexBlock(hex_val(s) as u16)
    } else if 2 <= s.len() && s.len() <= 4 && s[0] == 'x' && all_hex_digits(s.skip(1)) {
        Token::HexBlock(hex_val(s.skip(1)) as u16)
    } else {
        Token::Unknown
    }
}

/// Reads a 1-3 character label as a decimal number; `None` unless every
/// character is a decimal digit.
fn parse_dec_digits(label: &str) -> (r: Option<u32>)
    requires
        1 <= label@.len() <= 3,
    ensures
        r is Some <==> all_dec_digits(label@),
        r matches Some(v) ==> v == dec_val(label@) && v <= 999,
{
    let n = label.unicode_len();
    let mut val: u32 = 0;
    let mut i: usize = 0;
    while i < n
        invariant
            i <= n,
            n == label@.len(),
            1 <= n <= 3,
            forall|j: int| 0 <= j < i ==> is_dec_digit(#[trigger] label@[j]),
            val == dec_val(label@.subrange(0, i as int)),
            val < if i == 0 { 1int } else if i == 1 { 10int } else if i == 2 { 100int } else { 1000int },
        decreases n - i,
    {
        let cv = label.get_char(i) as u32;
        if cv < 48 || cv > 57 {
            assert(!is_dec_digit(label@[i as int]));
            return None;
        }
        proof {
            assert(label@.subrange(0, i + 1).drop_last() =~= label@.subrange(0, i as int));
            assert(label@.subrange(0, i + 1).last() == label@[i as int]);
        }
        val = val * 10 + (cv - 48);
        i += 1;
    }
    proof {
        assert(label@.subrange(0, n as int) =~= label@);
    }
    Some(val)
}

/// Reads the characters of a label from position `from` on as a hex
/// number; `None` unless every one of them is a hex digit.
fn parse_hex_digits(label: &str, from: usize) -> (r: Option<u32>)
    requires
        from < label@.len(),
        label@.len() - from <= 4,
    ensures
        r is Some <==> all_hex_digits(label@.skip(from as int)),
        r matches Some(v) ==> v == hex_val(label@.skip(from as int)) && v <= 0xffff,
{
    let n = label.unicode_len();
    let mut val: u32 = 0;
    let mut i: usize = from;
    while i < n
        invariant
            from <= i <= n,
            n == label@.len(),
            n - from <= 4,
            forall|j: int| from <= j < i ==> is_hex_digit(#[trigger] label@[j]),
            val == hex_val(label@.subrange(from as int, i as int)),
            val < if i == from {
                1int
            } else if i == from + 1 {
                16int
            } else if i == from + 2 {
                256int
            } else if i == from + 3 {
                4096int
            } else {
                65536int
            },
        decreases n - i,
    {
        let cv = label.get_char(i) as u32;
        let d: u32 = if 48 <= cv && cv <= 57 {
            cv - 48
        } else if 97 <= cv && cv <= 102 {
            cv - 87
        } else if 65 <= cv && cv <= 70 {
            cv - 55
        } else {
            assert(!is_hex_digit(label@[i as int]));
            assert(label@.skip(from as int)[i - from] == label@[i as int]);
            return None;
        };
        proof {
            assert(d == hex_digit_val(label@[i as int]));
            assert(label@.subrange(from as int, i + 1).drop_last() =~= label@.subrange(
                from as int,
                i as int,
            ));
            assert(label@.subrange(from as int, i + 1).last() == label@[i as int]);
        }
        val = val * 16 + d;
        i += 1;
    }
    proof {
        assert(label@.subrange(from as int, n as int) =~= label@.skip(from as int));
        assert(forall|j: int|
            0 <= j < label@.skip(from as int).len() ==> label@.skip(from as int)[j] == label@[from
                + j]);
    }
    Some(val)
}

/// Classifies one label into its token, first match wins.
pub fn classify(label: &str) -> (t: Token)
    ensures
        t == spec_classify(label@),
{
    proof {
        reveal_strlit("_");
        reveal_strlit("local");
        reveal_strlit("map");
        assert("_"@ =~= seq!['_']);
        assert("local"@ =~= seq!['l', 'o', 'c', 'a', 'l']);
        assert("map"@ =~= seq!['m', 'a', 'p']);
    }
    if crate::name::str_eq(label, "_") {
        return Token::Filler;
    }
    if crate::name::str_eq(label, "local") {
        return Token::LocalModifier;
    }
    if crate::name::str_eq(label, "map") {
        return Token::MappedModifier;
    }
    let n = label.unicode_len();
    if 1 <= n && n <= 3 {
        match parse_dec_digits(label) {
            Some(v) => {
                if v <= 255 {
                    return Token::Octet(v as u8);
                } else {
                    // A 1-3 character all-decimal label over 255 matches no
                    // other rule: it is too short for a four-digit hex block
                    // and does not start with `x`.
                    assert(label@[0] != 'x');
                    return Token::Unknown;
                }
            },
            None => {},
        }
    }
    if n == 4 {
        proof {
            assert(label@.skip(0) =~= label@);
        }
        match parse_hex_digits(label, 0) {
            Some(v) => {
                return Token::HexBlock(v as u16);
            },
            None => {},
        }
    }
    if 2 <= n && n <= 4 {
        if label.get_char(0) == 'x' {
            match parse_hex_digits(label, 1) {
                Some(v) => {
                    return Token::HexBlock(v as u16);
                },
                None => {},
            }
        }
    }
    Token::Unknown
}

/// Collects the tokens of one queried name, in label order.
pub struct Parser {
    tokens: Vec<Token>,
}

impl View for Parser {
    type V = Seq<Token>;

    closed spec fn view(&self) -> Seq<Token> {
        self.tokens@
    }
}

impl Parser {
    /// A parser holding no tokens yet.
    pub fn new() -> (p: Parser)
        ensures
            p@ == Seq::<Token>::empty(),
    {
        Parser { tokens: Vec::new() }
    }

    /// Classifies one label and appends its token.
    pub fn add_token_from_label(&mut self, label: &str)
        ensures
            final(self)@ == old(self)@.push(spec_classify(label@)),
    {
        let t = classify(label);
        self.tokens.push(t);
    }
}

/// A successfully decoded 128-bit address: sixteen bytes, network order.
#[derive(Debug, PartialEq, Eq)]
pub struct Address {
    pub bytes: Vec<u8>,
}

impl View for Address {
    type V = Seq<u8>;

    open spec fn view(&self) -> Seq<u8> {
        self.bytes@
    }
}

/// The decoder's state after some prefix of the token sequence: the
/// sixteen-byte buffer, the fill cursor, the position of the compression
/// marker if one was seen, whether the previous token left a 16-bit group
/// half filled, and whether every rule so far was respected.
pub struct DecodeState {
    pub bytes: Seq<u8>,
    pub filled: int,
    pub filler_at: Option<int>,
    pub last_was_octet: bool,
    pub valid: bool,
}

/// The state before any token: an all-zero buffer, nothing filled, no
/// compression marker.
pub open spec fn dec_init() -> DecodeState {
    DecodeState {
        bytes: Seq::new(16, |i: int| 0u8),
        filled: 0,
        filler_at: None,
        last_was_octet: false,
        valid: true,
    }
}

/// One token's transition. A violated precondition marks the state
/// invalid; an invalid state absorbs every further token unchanged.
pub open spec fn dec_step(s: DecodeState, t: Token) -> DecodeState {
    if !s.valid {
        s
    } else {
        match t {
            Token::Octet(b) => if s.filled < 16 && (s.filled % 2 == 0 || s.last_was_octet) {
                DecodeState {
                    bytes: s.bytes.update(s.filled, b),
                    filled: s.filled + 1,
                    last_was_octet: (s.filled + 1) % 2 == 1,
                    ..s
                }
            } else {
                DecodeState { valid: false, ..s }
            },
            Token::Filler => if s.filler_at is None && s.filled < 16 {
                DecodeState { filler_at: Some(s.filled), ..s }
            } else {
                DecodeState { valid: false, ..s }
            },
            Token::HexBlock(v) => if s.filled % 2 == 0 && s.filled < 16 {
                DecodeState {
                    bytes: s.bytes.update(s.filled, (v / 256) as u8).update(
                        s.filled + 1,
                        (v % 256) as u8,
                    ),
                    filled: s.filled + 2,
                    ..s
                }
            } else {
                DecodeState { valid: false, ..s }
            },
            Token::MappedModifier => if s.filled == 0 && s.filler_at is None {
                DecodeState { bytes: s.bytes.update(10, 0xffu8).update(11, 0xffu8), filled: 12, ..s }
            } else {
                DecodeState { valid: false, ..s }
            },
            Token::LocalModifier => if s.filled == 0 && s.filler_at is None {
                DecodeState { bytes: s.bytes.update(0, 0xfeu8).update(1, 0x80u8), filled: 8, ..s }
            } else {
                DecodeState { valid: false, ..s }
            },
            Token::Unknown => if s.filled == 16 || s.filler_at is Some { s } else {
                DecodeState { valid: false, ..s }
            },
        }
    }
}

/// The decoder's state after the whole token sequence, processed in order.
pub open spec fn dec_run(tokens: Seq<Token>) -> DecodeState
    decreases tokens.len(),
{
    if tokens.len() == 0 {
        dec_init()
    } else {
        dec_step(dec_run(tokens.drop_last()), tokens.last())
    }
}

/// Expansion of the compression gap: the bytes before the marker keep
/// their place, the bytes after it move to the tail, and the gap between
/// is zero.
pub open spec fn spec_expand(bytes: Seq<u8>, filler_at: int, filled: int) -> Seq<u8> {
    Seq::new(
        16,
        |i: int|
            if i < filler_at {
                bytes[i]
            } else if i >= 16 - (filled - filler_at) {
                bytes[i - (16 - filled)]
            } else {
                0u8
            },
    )
}

/// The reported outcome once every token was seen: a rule violation or a
/// half-filled final group is invalid; a short buffer without a
/// compression marker lacks octets; otherwise the buffer, expanded around
/// the marker if one was seen.
pub open spec fn spec_finalize(s: DecodeState) -> Result<Seq<u8>, Error> {
    if !s.valid || s.last_was_octet {
        Err(Error::InvalidAddress)
    } else if s.filled != 16 && s.filler_at is None {
        Err(Error::NotEnoughOctets)
    } else {
        match s.filler_at {
            None => Ok(s.bytes),
            Some(f) => Ok(spec_expand(s.bytes, f, s.filled)),
        }
    }
}

/// What a token sequence decodes to.
pub open spec fn spec_decode(tokens: Seq<Token>) -> Result<Seq<u8>, Error> {
    spec_finalize(dec_run(tokens))
}

/// Every reachable decoder state keeps a sixteen-byte buffer, a cursor
/// inside it, and a marker at or before the cursor.
pub proof fn lemma_run_wf(tokens: Seq<Token>)
    ensures
        ({
            let st = dec_run(tokens);
            &&& st.bytes.len() == 16
            &&& 0 <= st.filled <= 16
            &&& (st.filler_at matches Some(k) ==> 0 <= k <= st.filled && k < 16)
        }),
    decreases tokens.len(),
{
    if tokens.len() > 0 {
        lemma_run_wf(tokens.drop_last());
    }
}

/// Sixteen bytes written as eight hex-block tokens, most significant
/// group first.
pub open spec fn hex_tokens(bs: Seq<u8>) -> Seq<Token> {
    Seq::new(8, |i: int| Token::HexBlock(((bs[2 * i] as int) * 256 + (bs[2 * i + 1] as int)) as u16))
}

/// Sixteen bytes written as sixteen decimal octet tokens, in order.
pub open spec fn octet_tokens(bs: Seq<u8>) -> Seq<Token> {
    Seq::new(16, |i: int| Token::Octet(bs[i]))
}

proof fn lemma_hex_tokens_run(bs: Seq<u8>, k: int)
    requires
        bs.len() == 16,
        0 <= k <= 8,
    ensures
        ({
            let st = dec_run(hex_tokens(bs).take(k));
            &&& st.valid
            &&& st.filled == 2 * k
            &&& st.filler_at is None
            &&& !st.last_was_octet
            &&& st.bytes.len() == 16
            &&& forall|i: int| 0 <= i < 2 * k ==> st.bytes[i] == bs[i]
        }),
    decreases k,
{
    if k > 0 {
        lemma_hex_tokens_run(bs, k - 1);
        assert(hex_tokens(bs).take(k).drop_last() =~= hex_tokens(bs).take(k - 1));
        assert(hex_tokens(bs).take(k).last() == hex_tokens(bs)[k - 1]);
        let a = bs[2 * (k - 1)] as int;
        let b = bs[2 * (k - 1) + 1] as int;
        assert(0 <= a * 256 + b <= 65535) by (nonlinear_arith)
            requires
                0 <= a <= 255,
                0 <= b <= 255,
        ;
        let v = (a * 256 + b) as u16;
        assert(v / 256 == a && v % 256 == b) by (nonlinear_arith)
            requires
                0 <= a <= 255,
                0 <= b <= 255,
                v == a * 256 + b,
        ;
    }
}

/// Round trip: sixteen bytes encoded as eight consecutive hex-block
/// tokens decode back to exactly those bytes.
pub proof fn lemma_hex_round_trip(bs: Seq<u8>)
    requires
        bs.len() == 16,
    ensures
        spec_decode(hex_tokens(bs)) == Ok::<Seq<u8>, Error>(bs),
{
    lemma_hex_tokens_run(bs, 8);
    assert(hex_tokens(bs).take(8) =~= hex_tokens(bs));
    let st = dec_run(hex_tokens(bs));
    assert(st.bytes =~= bs);
}

proof fn lemma_octet_tokens_run(bs: Seq<u8>, k: int)
    requires
        bs.len() == 16,
        0 <= k <= 16,
    ensures
        ({
            let st = dec_run(octet_tokens(bs).take(k));
            &&& st.valid
            &&& st.filled == k
            &&& st.filler_at is None
            &&& st.last_was_octet == (k % 2 == 1)
            &&& st.bytes.len() == 16
            &&& forall|i: int| 0 <= i < k ==> st.bytes[i] == bs[i]
        }),
    decreases k,
{
    if k > 0 {
        lemma_octet_tokens_run(bs, k - 1);
        assert(octet_tokens(bs).take(k).drop_last() =~= octet_tokens(bs).take(k - 1));
        assert(octet_tokens(bs).take(k).last() == octet_tokens(bs)[k - 1]);
    }
}

/// Round trip: sixteen bytes encoded as sixteen decimal octet tokens
/// decode back to exactly those bytes.
pub proof fn lemma_octet_round_trip(bs: Seq<u8>)
    requires
        bs.len() == 16,
    ensures
        spec_decode(octet_tokens(bs)) == Ok::<Seq<u8>, Error>(bs),
{
    lemma_octet_tokens_run(bs, 16);
    assert(octet_tokens(bs).take(16) =~= octet_tokens(bs));
    let st = dec_run(octet_tokens(bs));
    assert(st.bytes =~= bs);
}

/// After a compression marker was seen, every later state still shows a
/// marker or has already gone invalid.
spec fn marked(s: DecodeState) -> bool {
    !s.valid || s.filler_at is Some
}

proof fn lemma_run_extend_marked(tokens: Seq<Token>, from: int, to: int)
    requires
        0 <= from <= to <= tokens.len(),
        marked(dec_run(tokens.take(from))),
    ensures
        marked(dec_run(tokens.take(to))),
    decreases to - from,
{
    if to > from {
        lemma_run_extend_marked(tokens, from, to - 1);
        assert(tokens.take(to).drop_last() =~= tokens.take(to - 1));
        assert(tokens.take(to).last() == tokens[to - 1]);
    }
}

proof fn lemma_run_extend_invalid(tokens: Seq<Token>, from: int, to: int)
    requires
        0 <= from <= to <= tokens.len(),
        !dec_run(tokens.take(from)).valid,
    ensures
        !dec_run(tokens.take(to)).valid,
    decreases to - from,
{
    if to > from {
        lemma_run_extend_invalid(tokens, from, to - 1);
        assert(tokens.take(to).drop_last() =~= tokens.take(to - 1));
        assert(tokens.take(to).last() == tokens[to - 1]);
    }
}

/// A token sequence holding two compression markers always decodes to
/// `InvalidAddress`, whatever else it holds.
pub proof fn lemma_two_fillers_fail(tokens: Seq<Token>, i: int, j: int)
    requires
        0 <= i < j < tokens.len(),
        tokens[i] == Token::Filler,
        tokens[j] == Token::Filler,
    ensures
        spec_decode(tokens) == Err::<Seq<u8>, Error>(Error::InvalidAddress),
{
    assert(tokens.take(i + 1).drop_last() =~= tokens.take(i));
    assert(tokens.take(i + 1).last() == tokens[i]);
    assert(marked(dec_run(tokens.take(i + 1))));
    lemma_run_extend_marked(tokens, i + 1, j);
    assert(tokens.take(j + 1).drop_last() =~= tokens.take(j));
    assert(tokens.take(j + 1).last() == tokens[j]);
    assert(!dec_run(tokens.take(j + 1)).valid);
    lemma_run_extend_invalid(tokens, j + 1, tokens.len() as int);
    assert(tokens.take(tokens.len() as int) =~= tokens);
}

/// A run that fills all sixteen bytes succeeds even if it also saw one
/// compression marker: the gap is zero-length and no byte moves, so the
/// result is the committed buffer verbatim, exactly as without a marker.
pub proof fn lemma_full_buffer_ignores_filler(tokens: Seq<Token>)
    requires
        ({
            let st = dec_run(tokens);
            st.valid && !st.last_was_octet && st.filled == 16
        }),
    ensures
        spec_decode(tokens) == Ok::<Seq<u8>, Error>(dec_run(tokens).bytes),
{
    lemma_run_wf(tokens);
    let st = dec_run(tokens);
    match st.filler_at {
        None => {},
        Some(f) => {
            assert(spec_expand(st.bytes, f, 16) =~= st.bytes);
        },
    }
}

proof fn lemma_no_filler_none(tokens: Seq<Token>)
    requires
        forall|k: int| 0 <= k < tokens.len() ==> tokens[k] != Token::Filler,
    ensures
        dec_run(tokens).filler_at is None,
    decreases tokens.len(),
{
    if tokens.len() > 0 {
        assert(forall|k: int|
            0 <= k < tokens.drop_last().len() ==> tokens.drop_last()[k] != Token::Filler);
        lemma_no_filler_none(tokens.drop_last());
    }
}

/// A rule-abiding run that ends short of sixteen bytes fails with
/// `NotEnoughOctets` when no compression marker was given. (A run that
/// broke a rule on the way, or that ended inside a 16-bit group, reports
/// `InvalidAddress` instead and is excluded here.)
pub proof fn lemma_no_filler_short_fails(tokens: Seq<Token>)
    requires
        forall|k: int| 0 <= k < tokens.len() ==> tokens[k] != Token::Filler,
        ({
            let st = dec_run(tokens);
            st.valid && !st.last_was_octet && st.filled < 16
        }),
    ensures
        spec_decode(tokens) == Err::<Seq<u8>, Error>(Error::NotEnoughOctets),
{
    lemma_no_filler_none(tokens);
}

/// `filler_at` of an executable `Option<usize>`, as the spec state holds it.
pub open spec fn filler_view(o: Option<usize>) -> Option<int> {
    match o {
        Some(k) => Some(k as int),
        None => None,
    }
}

/// A vector of `n` zero bytes.
fn zero_bytes(n: usize) -> (r: Vec<u8>)
    ensures
        r@ =~= Seq::new(n as nat, |i: int| 0u8),
{
    let mut v: Vec<u8> = Vec::new();
    let mut i: usize = 0;
    while i < n
        invariant
            i <= n,
            v@ =~= Seq::new(i as nat, |j: int| 0u8),
        decreases n - i,
    {
        v.push(0);
        i += 1;
    }
    v
}

impl Parser {
    /// Decodes the collected tokens into a sixteen-byte address, or
    /// reports the first kind of failure the sequence exhibits.
    pub fn to_address(&self) -> (r: Result<Address, Error>)
        ensures
            match spec_decode(self@) {
                Ok(b) => r matches Ok(a) && a@ == b && a@.len() == 16,
                Err(e) => r matches Err(e2) && e2 == e,
            },
    {
        let n = self.tokens.len();
        let mut bytes = zero_bytes(16);
        let mut filled: usize = 0;
        let mut filler_at: Option<usize> = None;
        let mut last_was_octet = false;
        let mut valid = true;
        let mut i: usize = 0;
        while i < n
            invariant
                i <= n,
                n == self.tokens@.len(),
                bytes@.len() == 16,
                filled <= 16,
                filler_view(filler_at) matches Some(k) ==> k <= filled,
                ({
                    let st = dec_run(self.tokens@.take(i as int));
                    &&& valid == st.valid
                    &&& valid ==> {
                        &&& bytes@ == st.bytes
                        &&& filled == st.filled
                        &&& filler_view(filler_at) == st.filler_at
                        &&& last_was_octet == st.last_was_octet
                    }
                }),
            decreases n - i,
        {
            proof {
                assert(self.tokens@.take(i + 1).drop_last() =~= self.tokens@.take(i as int));
                assert(self.tokens@.take(i + 1).last() == self.tokens@[i as int]);
            }
            if valid {
                match self.tokens[i] {
                    Token::Octet(b) => {
                        if filled < 16 && (filled % 2 == 0 || last_was_octet) {
                            bytes.set(filled, b);
                            filled += 1;
                            last_was_octet = filled % 2 == 1;
                        } else {
                            valid = false;
                        }
                    },
                    Token::Filler => {
                        if filler_at.is_none() && filled < 16 {
                            filler_at = Some(filled);
                        } else {
                            valid = false;
                        }
                    },
                    Token::HexBlock(v) => {
                        if filled % 2 == 0 && filled < 16 {
                            bytes.set(filled, (v / 256) as u8);
                            bytes.set(filled + 1, (v % 256) as u8);
                            filled += 2;
                        } else {
                            valid = false;
                        }
                    },
                    Token::MappedModifier => {
                        if filled == 0 && filler_at.is_none() {
                            bytes.set(10, 0xff);
                            bytes.set(11, 0xff);
                            filled = 12;
                        } else {
                            valid = false;
                        }
                    },
                    Token::LocalModifier => {
                        if filled == 0 && filler_at.is_none() {
                            bytes.set(0, 0xfe);
                            bytes.set(1, 0x80);
                            filled = 8;
                        } else {
                            valid = false;
                        }
                    },
                    Token::Unknown => {
                        if filled == 16 || filler_at.is_some() {
                            // an apex-suffix label after a complete address: ignored
                        } else {
                            valid = false;
                        }
                    },
                }
            }
            i += 1;
        }
        proof {
            assert(self.tokens@.take(n as int) =~= self.tokens@);
        }
        if !valid || last_was_octet {
            return Err(Error::InvalidAddress);
        }
        match filler_at {
            None => {
                if filled != 16 {
                    return Err(Error::NotEnoughOctets);
                }
                Ok(Address { bytes })
            },
            Some(f) => {
                let gap_end = 16 - (filled - f);
                let mut out = zero_bytes(16);
                let mut j: usize = 0;
                while j < f
                    invariant
                        j <= f,
                        f <= filled <= 16,
                        bytes@.len() == 16,
                        out@.len() == 16,
                        gap_end == 16 - (filled - f),
                        forall|k: int| 0 <= k < j ==> out@[k] == bytes@[k],
                        forall|k: int| j <= k < 16 ==> out@[k] == 0u8,
                    decreases f - j,
                {
                    out.set(j, bytes[j]);
                    j += 1;
                }
                let mut m: usize = 0;
                while m < filled - f
                    invariant
                        m <= filled - f,
                        f <= filled <= 16,
                        bytes@.len() == 16,
                        out@.len() == 16,
                        gap_end == 16 - (filled - f),
                        forall|k: int| 0 <= k < f ==> out@[k] == bytes@[k],
                        forall|k: int|
                            gap_end <= k < gap_end + m ==> out@[k] == bytes@[k - (16 - filled)],
                        forall|k: int| f <= k < 16 && !(gap_end <= k < gap_end + m) ==> out@[k] == 0u8,
                    decreases filled - f - m,
                {
                    out.set(gap_end + m, bytes[f + m]);
                    m += 1;
                }
                proof {
                    let st = dec_run(self.tokens@);
                    assert(out@ =~= spec_expand(st.bytes, f as int, st.filled));
                }
                Ok(Address { bytes: out })
            },
        }
    }
}

} // verus!
