//! The token stream that every serializable value writes itself into, and
//! the checksummed byte encoding used on disk.
//!
//! A stream is a list of tokens (non-empty ASCII strings without
//! whitespace).  On disk the stream is rendered as the decimal checksum, a
//! space, then every token followed by a space.  The checksum folds every
//! byte of every token into a 128-bit accumulator: starting from 1, each
//! step first shifts the accumulator right by one byte when it grew past
//! `u128::MAX >> 7`, then multiplies it by the byte value plus one.

use vstd::prelude::*;
use vstd::utf8::is_ascii_chars;

use crate::numbers::{dec_seq, push_dec_bytes, parse_u128, spec_parse_u128};
use crate::numbers::{lemma_dec_seq_digits, is_digit};
use crate::text::{ascii_byte_seq, ascii_bytes, ascii_to_string, bytes_chars, str_ascii_bytes};
use crate::text::{lemma_ascii_bytes_chars, lemma_ascii_char_byte_cast};

verus! {

/// The accumulator bound above which the checksum shifts one byte out.
pub const CS_LIMIT: u128 = 0x1FFFFFFFFFFFFFFFFFFFFFFFFFFFFFF;

/// One checksum step: shift the accumulator down a byte when it is above
/// the limit, then multiply by the byte value plus one.
pub open spec fn cs_step(cs: int, b: u8) -> int {
    let c = if cs > CS_LIMIT as int {
        cs / 256
    } else {
        cs
    };
    c * (b + 1)
}

/// Folds a byte sequence into the accumulator.
pub open spec fn cs_fold_bytes(cs: int, b: Seq<u8>) -> int
    decreases b.len(),
{
    if b.len() == 0 {
        cs
    } else {
        cs_fold_bytes(cs_step(cs, b[0]), b.drop_first())
    }
}

/// Folds every token of the stream into the accumulator.
pub open spec fn cs_fold_tokens(cs: int, ts: Seq<Seq<char>>) -> int
    decreases ts.len(),
{
    if ts.len() == 0 {
        cs
    } else {
        cs_fold_tokens(cs_fold_bytes(cs, ascii_bytes(ts[0])), ts.drop_first())
    }
}

/// The checksum of a token stream.
pub open spec fn spec_checksum(ts: Seq<Seq<char>>) -> int {
    cs_fold_tokens(1, ts)
}

/// A whitespace character of the ASCII range, as `str::split_whitespace`
/// sees it.
pub open spec fn is_ws_char(c: char) -> bool {
    c == ' ' || c == '\t' || c == '\n' || c == '\r' || c == '\u{b}' || c == '\u{c}'
}

/// A whitespace byte of the ASCII range.
pub open spec fn is_ws_byte(b: u8) -> bool {
    b == 32 || b == 9 || b == 10 || b == 13 || b == 11 || b == 12
}

/// A well-formed token: non-empty, ASCII, and free of whitespace, so that
/// the rendered stream splits back into exactly the same tokens.
pub open spec fn token_wf(t: Seq<char>) -> bool {
    &&& t.len() > 0
    &&& is_ascii_chars(t)
    &&& forall|i: int| 0 <= i < t.len() ==> !is_ws_char(#[trigger] t[i])
}

/// Every token of the stream is well formed.
pub open spec fn tokens_wf(ts: Seq<Seq<char>>) -> bool {
    forall|i: int| 0 <= i < ts.len() ==> token_wf(#[trigger] ts[i])
}

/// Every token of the stream is ASCII.
pub open spec fn tokens_ascii(ts: Seq<Seq<char>>) -> bool {
    forall|i: int| 0 <= i < ts.len() ==> is_ascii_chars(#[trigger] ts[i])
}

/// The byte rendering of the tokens alone: each token followed by a space.
pub open spec fn joined_bytes(ts: Seq<Seq<char>>) -> Seq<u8>
    decreases ts.len(),
{
    if ts.len() == 0 {
        Seq::empty()
    } else {
        ascii_bytes(ts[0]) + seq![32u8] + joined_bytes(ts.drop_first())
    }
}

/// The full byte rendering of a stream: decimal checksum, a space, then
/// the joined tokens.
pub open spec fn render_bytes(ts: Seq<Seq<char>>) -> Seq<u8> {
    ascii_bytes(dec_seq(spec_checksum(ts) as nat)) + seq![32u8] + joined_bytes(ts)
}

/// Index of the first occurrence of a byte.
pub open spec fn find_byte(b: Seq<u8>, x: u8) -> Option<int>
    decreases b.len(),
{
    if b.len() == 0 {
        None
    } else if b[0] == x {
        Some(0)
    } else {
        match find_byte(b.drop_first(), x) {
            Some(i) => Some(i + 1),
            None => None,
        }
    }
}

/// Length of the maximal whitespace-free prefix.
pub open spec fn ws_token_len(b: Seq<u8>) -> int
    decreases b.len(),
{
    if b.len() == 0 || is_ws_byte(b[0]) {
        0
    } else {
        1 + ws_token_len(b.drop_first())
    }
}

/// The whitespace-free prefix is no longer than the sequence.
pub proof fn lemma_ws_token_len_bounds(b: Seq<u8>)
    ensures
        0 <= ws_token_len(b) <= b.len(),
        b.len() > 0 && !is_ws_byte(b[0]) ==> 1 <= ws_token_len(b),
    decreases b.len(),
{
    if b.len() > 0 && !is_ws_byte(b[0]) {
        lemma_ws_token_len_bounds(b.drop_first());
    }
}

/// Splits a byte sequence at whitespace, dropping empty pieces, exactly as
/// `str::split_whitespace` does on ASCII text.
pub open spec fn ws_split(b: Seq<u8>) -> Seq<Seq<u8>>
    decreases b.len(),
    via ws_split_decreases
{
    if b.len() == 0 {
        Seq::empty()
    } else if is_ws_byte(b[0]) {
        ws_split(b.drop_first())
    } else {
        seq![b.take(ws_token_len(b))] + ws_split(b.skip(ws_token_len(b)))
    }
}

#[via_fn]
proof fn ws_split_decreases(b: Seq<u8>) {
    lemma_ws_token_len_bounds(b);
}

/// What loading bytes from disk yields: `Some` of the token stream when the
/// bytes are ASCII, hold a checksum before the first space, and the checksum
/// matches the tokens after it; `None` otherwise.
pub open spec fn spec_from_bytes(bytes: Seq<u8>) -> Option<Seq<Seq<char>>> {
    if !ascii_byte_seq(bytes) {
        None
    } else {
        match find_byte(bytes, 32) {
            None => None,
            Some(sp) => match spec_parse_u128(bytes_chars(bytes.take(sp))) {
                None => None,
                Some(cs) => {
                    let toks = ws_split(bytes.skip(sp)).map_values(|t: Seq<u8>| bytes_chars(t));
                    if spec_checksum(toks) == cs {
                        Some(toks)
                    } else {
                        None
                    }
                },
            },
        }
    }
}

/// Replaces each space of a string by the sentinel text, so that the result
/// can stand as a single token.
pub open spec fn subst_token(s: Seq<char>) -> Seq<char>
    decreases s.len(),
{
    if s.len() == 0 {
        s
    } else if s[0] == ' ' {
        spec_space_substitute() + subst_token(s.drop_first())
    } else {
        seq![s[0]] + subst_token(s.drop_first())
    }
}

/// The sentinel text that stands for a space inside a token.
pub open spec fn spec_space_substitute() -> Seq<char> {
    "PRIMECLUE_SPACE_SUBSTITUTE"@
}

/// The sentinel text, for executable use.
pub fn space_substitute() -> (r: &'static str)
    ensures
        r@ == spec_space_substitute(),
{
    "PRIMECLUE_SPACE_SUBSTITUTE"
}

/// The growing token stream behind every serialization, and the cursor
/// that deserialization walks along it.
pub struct Serializator {
    strings: Vec<String>,
    next_token: usize,
}

impl Serializator {
    /// The stream as a mathematical sequence of tokens.
    pub closed spec fn tokens(&self) -> Seq<Seq<char>> {
        Seq::new(self.strings@.len(), |i: int| self.strings@[i]@)
    }

    /// The cursor: how many tokens deserialization has consumed.
    pub closed spec fn pos(&self) -> int {
        self.next_token as int
    }

    /// An empty stream.
    pub fn new() -> (r: Serializator)
        ensures
            r.tokens() =~= Seq::<Seq<char>>::empty(),
            r.pos() == 0,
    {
        Serializator { strings: Vec::new(), next_token: 0 }
    }

    /// Hands out the token under the cursor and moves the cursor past it;
    /// fails once the stream is exhausted.
    pub fn next_token(&mut self) -> (r: Result<String, String>)
        ensures
            final(self).tokens() == old(self).tokens(),
            old(self).pos() < old(self).tokens().len() ==> {
                &&& r matches Ok(t) && t@ == old(self).tokens()[old(self).pos()]
                &&& final(self).pos() == old(self).pos() + 1
            },
            old(self).pos() >= old(self).tokens().len() ==> {
                &&& r matches Err(e) && e@ == "Not enough tokens"@
                &&& final(self).pos() == old(self).pos()
            },
            old(self).pos() <= final(self).pos(),
    {
        if self.next_token < self.strings.len() {
            let t = self.strings[self.next_token].clone();
            self.next_token = self.next_token + 1;
            Ok(t)
        } else {
            Err("Not enough tokens".to_owned())
        }
    }

    /// Appends a string as one token, spaces replaced by the sentinel.
    pub fn add_string(&mut self, v: String)
        ensures
            final(self).tokens() =~= old(self).tokens().push(subst_token(v@)),
            final(self).pos() == old(self).pos(),
    {
        let t = substitute_spaces(v.as_str());
        self.strings.push(t);
    }

    /// Appends a string slice as one token, spaces replaced by the sentinel.
    pub fn add_str(&mut self, v: &str)
        ensures
            final(self).tokens() =~= old(self).tokens().push(subst_token(v@)),
            final(self).pos() == old(self).pos(),
    {
        self.add_string(v.to_owned());
    }

    /// Writes a value into the stream.
    pub fn add<T: crate::serialization::Serializable>(&mut self, v: &T)
        ensures
            final(self).tokens() == old(self).tokens() + v.ser_tokens(),
            final(self).pos() == old(self).pos(),
    {
        v.serialize(self);
    }

    /// Writes each value of a list into the stream, in order.
    pub fn add_items<T: crate::serialization::Serializable>(&mut self, a: &[&T])
        ensures
            final(self).tokens() == old(self).tokens() + Seq::new(
                a@.len(),
                |i: int| a@[i].ser_tokens(),
            ).flatten(),
            final(self).pos() == old(self).pos(),
    {
        broadcast use vstd::seq_lib::group_seq_lib_default;

        let ghost all: Seq<Seq<Seq<char>>> = Seq::new(a@.len(), |i: int| a@[i].ser_tokens());
        let mut i: usize = 0;
        proof {
            assert(all.take(0) =~= Seq::<Seq<Seq<char>>>::empty());
            assert(Seq::<Seq<Seq<char>>>::empty().flatten() =~= Seq::<Seq<char>>::empty());
        }
        while i < a.len()
            invariant
                i <= a@.len(),
                all == Seq::new(a@.len(), |k: int| a@[k].ser_tokens()),
                self.tokens() == old(self).tokens() + all.take(i as int).flatten(),
                self.pos() == old(self).pos(),
            decreases a@.len() - i,
        {
            let item: &T = a[i];
            self.add(item);
            proof {
                all.take(i as int).lemma_flatten_push(item.ser_tokens());
                assert(all.take(i as int + 1) =~= all.take(i as int).push(item.ser_tokens()));
            }
            i = i + 1;
        }
        proof {
            assert(all.take(a@.len() as int) =~= all);
        }
    }

    /// Whether every token is ASCII, so that the stream can be rendered
    /// to bytes.
    pub fn is_ascii_tokens(&self) -> (r: bool)
        ensures
            r == tokens_ascii(self.tokens()),
    {
        let mut i: usize = 0;
        while i < self.strings.len()
            invariant
                i <= self.strings.len(),
                forall|j: int| 0 <= j < i ==> is_ascii_chars(#[trigger] self.tokens()[j]),
            decreases self.strings.len() - i,
        {
            if !self.strings[i].is_ascii() {
                proof {
                    assert(!is_ascii_chars(self.tokens()[i as int]));
                }
                return false;
            }
            i = i + 1;
        }
        true
    }

    /// The checksum of the stream, folding every token byte in order.
    pub fn calc_checksum(&self) -> (r: u128)
        requires
            tokens_ascii(self.tokens()),
        ensures
            r as int == spec_checksum(self.tokens()),
    {
        let ghost ts = self.tokens();
        let mut cs: u128 = 1;
        let mut k: usize = 0;
        while k < self.strings.len()
            invariant
                tokens_ascii(ts),
                ts == self.tokens(),
                ts.len() == self.strings@.len(),
                k <= self.strings@.len(),
                1 <= cs,
                cs as int == cs_fold_tokens(1, ts.take(k as int)),
            decreases self.strings@.len() - k,
        {
            let tok: &String = &self.strings[k];
            proof {
                assert(tok@ == ts[k as int]);
                assert(is_ascii_chars(ts[k as int]));
            }
            let bytes = str_ascii_bytes(tok.as_str());
            let ghost cs0 = cs as int;
            proof {
                assert(tokens_ascii(ts.take(k as int))) by {
                    assert(forall|j: int|
                        0 <= j < k ==> #[trigger] ts.take(k as int)[j] == ts[j]);
                }
                lemma_cs_fold_tokens_bounds(1, ts.take(k as int));
            }
            let mut j: usize = 0;
            while j < bytes.len()
                invariant
                    ascii_byte_seq(bytes@),
                    j <= bytes@.len(),
                    1 <= cs,
                    cs0 >= 1,
                    cs as int == cs_fold_bytes(cs0, bytes@.take(j as int)),
                decreases bytes@.len() - j,
            {
                let b = bytes[j];
                proof {
                    lemma_cs_step_bounds(cs as int, b);
                    lemma_cs_fold_bytes_push(cs0, bytes@.take(j as int), b);
                    assert(bytes@.take(j as int + 1) =~= bytes@.take(j as int).push(b));
                }
                let ghost cs_before: int = cs as int;
                let c: u128 = if cs > CS_LIMIT {
                    proof {
                        assert(cs >> 8u128 == cs / 256 && cs >> 8u128
                            <= 0x1FFFFFFFFFFFFFFFFFFFFFFFFFFFFFFu128) by (bit_vector);
                    }
                    cs >> 8u128
                } else {
                    cs
                };
                proof {
                    assert(c as int == (if cs_before > CS_LIMIT as int {
                        cs_before / 256
                    } else {
                        cs_before
                    }));
                    assert(c as int * ((b as u128 + 1) as int) == cs_step(cs_before, b));
                }
                cs = c * ((b as u128) + 1);
                j = j + 1;
            }
            proof {
                assert(bytes@.take(bytes@.len() as int) =~= bytes@);
                lemma_cs_fold_tokens_push(1, ts.take(k as int), ts[k as int]);
                assert(ts.take(k as int + 1) =~= ts.take(k as int).push(ts[k as int]));
                assert(bytes@ == ascii_bytes(ts[k as int]));
            }
            k = k + 1;
        }
        proof {
            assert(ts.take(self.strings@.len() as int) =~= ts);
        }
        cs
    }

    /// All tokens joined into one string, each followed by a space.
    pub fn as_serialized(&self) -> (r: String)
        ensures
            r@ == joined_chars(self.tokens()),
    {
        let ghost ts = self.tokens();
        let mut all = String::new();
        let mut k: usize = 0;
        proof {
            assert(ts.take(0) =~= Seq::<Seq<char>>::empty());
        }
        while k < self.strings.len()
            invariant
                ts == self.tokens(),
                ts.len() == self.strings@.len(),
                k <= self.strings@.len(),
                all@ == joined_chars(ts.take(k as int)),
            decreases self.strings@.len() - k,
        {
            all.append(self.strings[k].as_str());
            all.append(" ");
            proof {
                reveal_strlit(" ");
                assert(" "@ =~= seq![' ']);
                lemma_joined_chars_push(ts.take(k as int), ts[k as int]);
                assert(ts.take(k as int + 1) =~= ts.take(k as int).push(ts[k as int]));
            }
            k = k + 1;
        }
        proof {
            assert(ts.take(self.strings@.len() as int) =~= ts);
        }
        all
    }

    /// The on-disk bytes: decimal checksum, a space, then every token
    /// followed by a space.
    pub fn to_bytes(&self) -> (r: Vec<u8>)
        requires
            tokens_ascii(self.tokens()),
        ensures
            r@ == render_bytes(self.tokens()),
    {
        let ghost ts = self.tokens();
        let cs = self.calc_checksum();
        let mut out: Vec<u8> = Vec::new();
        push_dec_bytes(cs, &mut out);
        out.push(32);
        let ghost head: Seq<u8> = ascii_bytes(dec_seq(spec_checksum(ts) as nat)) + seq![32u8];
        proof {
            assert(out@ =~= head) by {
                assert(out@.len() == head.len());
                assert forall|i: int| 0 <= i < out@.len() implies out@[i] == head[i] by {
                    if i < dec_seq(cs as nat).len() {
                        assert(out@[i] == dec_seq(cs as nat).map_values(|c: char| c as u8)[i]);
                    }
                }
            }
            assert(ts.take(0) =~= Seq::<Seq<char>>::empty());
        }
        let mut k: usize = 0;
        while k < self.strings.len()
            invariant
                tokens_ascii(ts),
                ts == self.tokens(),
                ts.len() == self.strings@.len(),
                k <= self.strings@.len(),
                out@ == head + joined_bytes(ts.take(k as int)),
            decreases self.strings@.len() - k,
        {
            proof {
                assert(is_ascii_chars(ts[k as int]));
            }
            let mut bytes = str_ascii_bytes(self.strings[k].as_str());
            out.append(&mut bytes);
            out.push(32);
            proof {
                lemma_joined_bytes_push(ts.take(k as int), ts[k as int]);
                assert(ts.take(k as int + 1) =~= ts.take(k as int).push(ts[k as int]));
                assert(out@ =~= head + joined_bytes(ts.take(k as int + 1)));
            }
            k = k + 1;
        }
        proof {
            assert(ts.take(self.strings@.len() as int) =~= ts);
            assert(out@ =~= render_bytes(ts));
        }
        out
    }

    /// Reads a stream back from its on-disk bytes, verifying the checksum;
    /// the cursor of the result stands at the first token.
    pub fn from_bytes(bytes: Vec<u8>) -> (r: Result<Serializator, String>)
        ensures
            r matches Ok(s2) ==> spec_from_bytes(bytes@) == Some(s2.tokens()) && s2.pos() == 0,
            r is Err ==> spec_from_bytes(bytes@) is None,
    {
        let n = bytes.len();
        let mut i: usize = 0;
        while i < n
            invariant
                i <= n == bytes@.len(),
                forall|j: int| 0 <= j < i ==> #[trigger] bytes@[j] < 128,
            decreases n - i,
        {
            if bytes[i] >= 128 {
                proof {
                    assert(!ascii_byte_seq(bytes@));
                }
                return Err("Cannot convert bytes to String".to_owned());
            }
            i = i + 1;
        }
        proof {
            assert(ascii_byte_seq(bytes@));
        }
        let mut sp: usize = 0;
        while sp < n && bytes[sp] != 32
            invariant
                sp <= n == bytes@.len(),
                forall|j: int| 0 <= j < sp ==> bytes@[j] != 32,
            decreases n - sp,
        {
            sp = sp + 1;
        }
        proof {
            lemma_find_byte_at(bytes@, 32, sp as int);
        }
        if sp >= n {
            return Err("Unable to find check sum".to_owned());
        }
        let prefix = copy_range(&bytes, 0, sp);
        proof {
            assert(prefix@ =~= bytes@.take(sp as int));
            assert(ascii_byte_seq(prefix@));
        }
        let pstr = ascii_to_string(prefix);
        let cs = match parse_u128(pstr.as_str()) {
            Some(cs) => cs,
            None => {
                return Err("Unable to parse checksum".to_owned());
            },
        };
        let ghost rest = bytes@.skip(sp as int);
        let mut strings: Vec<String> = Vec::new();
        let ghost mut done: Seq<Seq<u8>> = Seq::empty();
        let mut i: usize = sp;
        proof {
            assert(ws_split(rest) =~= done + ws_split(bytes@.skip(i as int)));
        }
        while i < n
            invariant
                sp <= i <= n == bytes@.len(),
                ascii_byte_seq(bytes@),
                rest == bytes@.skip(sp as int),
                ws_split(rest) == done + ws_split(bytes@.skip(i as int)),
                strings@.len() == done.len(),
                forall|k: int|
                    0 <= k < done.len() ==> (#[trigger] strings@[k]@) == bytes_chars(done[k])
                        && is_ascii_chars(strings@[k]@),
            decreases n - i,
        {
            if is_ws_b(bytes[i]) {
                proof {
                    lemma_ws_split_skip_ws(bytes@.skip(i as int));
                    assert(bytes@.skip(i as int).drop_first() =~= bytes@.skip(i as int + 1));
                }
                i = i + 1;
            } else {
                let mut j: usize = i + 1;
                while j < n && !is_ws_b(bytes[j])
                    invariant
                        i < j <= n == bytes@.len(),
                        forall|k: int| i <= k < j ==> !is_ws_byte(#[trigger] bytes@[k]),
                    decreases n - j,
                {
                    j = j + 1;
                }
                let ghost tail = bytes@.skip(i as int);
                proof {
                    assert(forall|k: int|
                        0 <= k < n - i ==> #[trigger] tail[k] == bytes@[k + i]);
                    lemma_ws_token_len_exact(tail, j - i);
                    assert(tail.take(j - i) =~= bytes@.subrange(i as int, j as int));
                    assert(tail.skip(j - i) =~= bytes@.skip(j as int));
                    assert(ws_split(tail) == seq![bytes@.subrange(i as int, j as int)]
                        + ws_split(bytes@.skip(j as int)));
                }
                let tok = copy_range(&bytes, i, j);
                proof {
                    assert(ascii_byte_seq(tok@));
                }
                let s = ascii_to_string(tok);
                strings.push(s);
                proof {
                    done = done.push(bytes@.subrange(i as int, j as int));
                    assert(ws_split(rest) =~= done + ws_split(bytes@.skip(j as int)));
                }
                i = j;
            }
        }
        proof {
            assert(bytes@.skip(n as int) =~= Seq::<u8>::empty());
            assert(ws_split(bytes@.skip(n as int)) =~= Seq::<Seq<u8>>::empty());
            assert(ws_split(rest) =~= done);
        }
        let ser = Serializator { strings, next_token: 0 };
        proof {
            assert(ser.tokens() =~= ws_split(rest).map_values(|t: Seq<u8>| bytes_chars(t)));
            assert(tokens_ascii(ser.tokens()));
        }
        let actual = ser.calc_checksum();
        if actual == cs {
            Ok(ser)
        } else {
            Err("Invalid checksum".to_owned())
        }
    }
}

// Accumulator lemmas: folding one more element equals one more step.

/// Folding one more byte is one more checksum step.
proof fn lemma_cs_fold_bytes_push(cs: int, b: Seq<u8>, x: u8)
    ensures
        cs_fold_bytes(cs, b.push(x)) == cs_step(cs_fold_bytes(cs, b), x),
    decreases b.len(),
{
    reveal_with_fuel(cs_fold_bytes, 3);
    if b.len() == 0 {
        assert(b.push(x)[0] == x);
        assert(b.push(x).drop_first() =~= Seq::<u8>::empty());
    } else {
        assert(b.push(x)[0] == b[0]);
        assert(b.push(x).drop_first() =~= b.drop_first().push(x));
        lemma_cs_fold_bytes_push(cs_step(cs, b[0]), b.drop_first(), x);
    }
}

/// Folding one more token folds its bytes onto the accumulator.
proof fn lemma_cs_fold_tokens_push(cs: int, ts: Seq<Seq<char>>, t: Seq<char>)
    ensures
        cs_fold_tokens(cs, ts.push(t)) == cs_fold_bytes(cs_fold_tokens(cs, ts), ascii_bytes(t)),
    decreases ts.len(),
{
    reveal_with_fuel(cs_fold_tokens, 3);
    if ts.len() == 0 {
        assert(ts.push(t)[0] == t);
        assert(ts.push(t).drop_first() =~= Seq::<Seq<char>>::empty());
    } else {
        assert(ts.push(t)[0] == ts[0]);
        assert(ts.push(t).drop_first() =~= ts.drop_first().push(t));
        lemma_cs_fold_tokens_push(cs_fold_bytes(cs, ascii_bytes(ts[0])), ts.drop_first(), t);
    }
}

/// One checksum step keeps the accumulator within `u128`.
proof fn lemma_cs_step_bounds(cs: int, b: u8)
    requires
        1 <= cs <= u128::MAX,
        b < 128,
    ensures
        1 <= cs_step(cs, b) <= u128::MAX - 127,
{
    let c = if cs > CS_LIMIT as int {
        cs / 256
    } else {
        cs
    };
    assert(1 <= c <= CS_LIMIT as int);
    assert(c * (b + 1) <= CS_LIMIT as int * 128) by (nonlinear_arith)
        requires
            1 <= c <= CS_LIMIT as int,
            0 < b + 1 <= 128,
    ;
    assert(c * (b + 1) >= c) by (nonlinear_arith)
        requires
            1 <= c,
            1 <= b + 1,
    ;
}

/// Folding ASCII bytes keeps the accumulator within `u128`.
proof fn lemma_cs_fold_bytes_bounds(cs: int, b: Seq<u8>)
    requires
        1 <= cs <= u128::MAX,
        ascii_byte_seq(b),
    ensures
        1 <= cs_fold_bytes(cs, b) <= u128::MAX,
    decreases b.len(),
{
    if b.len() > 0 {
        lemma_cs_step_bounds(cs, b[0]);
        assert(ascii_byte_seq(b.drop_first())) by {
            assert(forall|i: int|
                0 <= i < b.len() - 1 ==> #[trigger] b.drop_first()[i] == b[i + 1]);
        }
        lemma_cs_fold_bytes_bounds(cs_step(cs, b[0]), b.drop_first());
    }
}

/// Folding ASCII tokens keeps the accumulator within `u128`.
proof fn lemma_cs_fold_tokens_bounds(cs: int, ts: Seq<Seq<char>>)
    requires
        1 <= cs <= u128::MAX,
        tokens_ascii(ts),
    ensures
        1 <= cs_fold_tokens(cs, ts) <= u128::MAX,
    decreases ts.len(),
{
    if ts.len() > 0 {
        lemma_ascii_bytes_chars(ts[0]);
        lemma_cs_fold_bytes_bounds(cs, ascii_bytes(ts[0]));
        assert(tokens_ascii(ts.drop_first())) by {
            assert(forall|i: int|
                0 <= i < ts.len() - 1 ==> #[trigger] ts.drop_first()[i] == ts[i + 1]);
        }
        lemma_cs_fold_tokens_bounds(cs_fold_bytes(cs, ascii_bytes(ts[0])), ts.drop_first());
    }
}

/// The checksum of an ASCII stream fits in a `u128`.
pub proof fn lemma_checksum_bounds(ts: Seq<Seq<char>>)
    requires
        tokens_ascii(ts),
    ensures
        1 <= spec_checksum(ts) <= u128::MAX,
{
    lemma_cs_fold_tokens_bounds(1, ts);
}

/// The character rendering of the tokens alone: each token followed by a
/// space.
pub open spec fn joined_chars(ts: Seq<Seq<char>>) -> Seq<char>
    decreases ts.len(),
{
    if ts.len() == 0 {
        Seq::empty()
    } else {
        ts[0] + seq![' '] + joined_chars(ts.drop_first())
    }
}

/// Joining one more token appends it and a space.
proof fn lemma_joined_chars_push(ts: Seq<Seq<char>>, t: Seq<char>)
    ensures
        joined_chars(ts.push(t)) == joined_chars(ts) + t + seq![' '],
    decreases ts.len(),
{
    reveal_with_fuel(joined_chars, 3);
    if ts.len() == 0 {
        assert(ts.push(t)[0] == t);
        assert(ts.push(t).drop_first() =~= Seq::<Seq<char>>::empty());
        assert(joined_chars(ts.push(t)) =~= joined_chars(ts) + t + seq![' ']);
    } else {
        assert(ts.push(t)[0] == ts[0]);
        assert(ts.push(t).drop_first() =~= ts.drop_first().push(t));
        lemma_joined_chars_push(ts.drop_first(), t);
        assert(joined_chars(ts.push(t)) =~= joined_chars(ts) + t + seq![' ']);
    }
}

/// Rendering one more token appends its bytes and a space byte.
proof fn lemma_joined_bytes_push(ts: Seq<Seq<char>>, t: Seq<char>)
    ensures
        joined_bytes(ts.push(t)) == joined_bytes(ts) + ascii_bytes(t) + seq![32u8],
    decreases ts.len(),
{
    reveal_with_fuel(joined_bytes, 3);
    if ts.len() == 0 {
        assert(ts.push(t)[0] == t);
        assert(ts.push(t).drop_first() =~= Seq::<Seq<char>>::empty());
        assert(joined_bytes(ts.push(t)) =~= joined_bytes(ts) + ascii_bytes(t) + seq![32u8]);
    } else {
        assert(ts.push(t)[0] == ts[0]);
        assert(ts.push(t).drop_first() =~= ts.drop_first().push(t));
        lemma_joined_bytes_push(ts.drop_first(), t);
        assert(joined_bytes(ts.push(t)) =~= joined_bytes(ts) + ascii_bytes(t) + seq![32u8]);
    }
}

/// Undoes the space substitution: every occurrence of the sentinel text
/// becomes a space again.
pub open spec fn unsubst_token(s: Seq<char>) -> Seq<char>
    decreases s.len(),
    via unsubst_token_decreases
{
    if s.len() == 0 {
        s
    } else if s.len() >= spec_space_substitute().len() && s.subrange(
        0,
        spec_space_substitute().len() as int,
    ) == spec_space_substitute() {
        seq![' '] + unsubst_token(s.skip(spec_space_substitute().len() as int))
    } else {
        seq![s[0]] + unsubst_token(s.drop_first())
    }
}

#[via_fn]
proof fn unsubst_token_decreases(s: Seq<char>) {
    reveal_strlit("PRIMECLUE_SPACE_SUBSTITUTE");
}

/// The sentinel text does not occur anywhere in the sequence.
pub open spec fn sentinel_free(s: Seq<char>) -> bool {
    forall|i: int|
        0 <= i <= s.len() - spec_space_substitute().len() ==> (#[trigger] s.subrange(
            i,
            i + spec_space_substitute().len() as int,
        )) != spec_space_substitute()
}

/// Substitution leaves a space-free string unchanged.
pub proof fn lemma_subst_token_id(s: Seq<char>)
    requires
        forall|i: int| 0 <= i < s.len() ==> (#[trigger] s[i]) != ' ',
    ensures
        subst_token(s) == s,
    decreases s.len(),
{
    if s.len() > 0 {
        assert(forall|i: int|
            0 <= i < s.len() - 1 ==> (#[trigger] s.drop_first()[i]) == s[i + 1]);
        lemma_subst_token_id(s.drop_first());
        assert(subst_token(s) =~= s);
    }
}

/// A sentinel-free string stays sentinel-free with its first character
/// removed.
proof fn lemma_sentinel_free_drop_first(s: Seq<char>)
    requires
        sentinel_free(s),
        s.len() > 0,
    ensures
        sentinel_free(s.drop_first()),
{
    assert forall|i: int|
        0 <= i <= s.drop_first().len() - spec_space_substitute().len() implies (
    #[trigger] s.drop_first().subrange(i, i + spec_space_substitute().len() as int))
        != spec_space_substitute() by {
        assert(s.drop_first().subrange(i, i + spec_space_substitute().len() as int)
            =~= s.subrange(i + 1, i + 1 + spec_space_substitute().len() as int));
    }
}

/// The sequence begins with the given prefix.
pub open spec fn begins_with(a: Seq<char>, p: Seq<char>) -> bool {
    a.len() >= p.len() && a.subrange(0, p.len() as int) == p
}

/// When the substituted text goes on like a tail of the sentinel, the
/// original text carried that tail literally: an injected sentinel cannot
/// continue a partial sentinel match.
proof fn lemma_subst_match_is_literal(v: Seq<char>, k: int)
    requires
        1 <= k <= spec_space_substitute().len(),
        begins_with(subst_token(v), spec_space_substitute().skip(k)),
    ensures
        begins_with(v, spec_space_substitute().skip(k)),
    decreases spec_space_substitute().len() - k,
{
    reveal_strlit("PRIMECLUE_SPACE_SUBSTITUTE");
    let sent = spec_space_substitute();
    let tail = sent.skip(k);
    if k == sent.len() {
        assert(v.subrange(0, 0) =~= tail);
    } else {
        let t = subst_token(v);
        assert(tail.len() > 0);
        assert(t.len() >= tail.len());
        assert(v.len() > 0);
        assert(t.subrange(0, tail.len() as int)[0] == t[0]);
        assert(tail[0] == sent[k]);
        if v[0] == ' ' {
            assert(t == sent + subst_token(v.drop_first()));
            assert(t[0] == sent[0]);
            assert(sent[k] == 'P');
            assert(k == 11) by {
                assert forall|j: int| 1 <= j < 26 && (#[trigger] sent[j]) == 'P' implies j
                    == 11 by {
                    assert(sent[11] == 'P');
                }
            }
            assert(tail.len() >= 2);
            assert(t.subrange(0, tail.len() as int)[1] == t[1]);
            assert(t[1] == sent[1]);
            assert(tail[1] == sent[12]);
            assert(sent[1] == 'R' && sent[12] == 'A');
            assert(false);
        } else {
            assert(t == seq![v[0]] + subst_token(v.drop_first()));
            assert(t[0] == v[0]);
            assert(v[0] == sent[k]);
            assert(begins_with(subst_token(v.drop_first()), sent.skip(k + 1))) by {
                assert(subst_token(v.drop_first()).subrange(0, sent.skip(k + 1).len() as int)
                    =~= sent.skip(k + 1)) by {
                    assert forall|j: int| 0 <= j < sent.len() - k - 1 implies #[trigger] subst_token(
                        v.drop_first(),
                    ).subrange(0, sent.skip(k + 1).len() as int)[j] == sent.skip(k + 1)[j] by {
                        assert(t.subrange(0, tail.len() as int)[j + 1] == tail[j + 1]);
                        assert(t[j + 1] == subst_token(v.drop_first())[j]);
                        assert(tail[j + 1] == sent[k + 1 + j]);
                    }
                }
            }
            lemma_subst_match_is_literal(v.drop_first(), k + 1);
            assert(v.subrange(0, tail.len() as int) =~= tail) by {
                assert forall|j: int| 0 <= j < tail.len() implies #[trigger] v.subrange(
                    0,
                    tail.len() as int,
                )[j] == tail[j] by {
                    if j > 0 {
                        assert(v.drop_first().subrange(0, sent.skip(k + 1).len() as int)[j - 1]
                            == sent.skip(k + 1)[j - 1]);
                        assert(v.drop_first()[j - 1] == v[j]);
                        assert(sent.skip(k + 1)[j - 1] == sent[k + j]);
                        assert(tail[j] == sent[k + j]);
                    }
                }
            }
        }
    }
}

/// Undoing the substitution recovers the original text: the round trip for
/// string tokens, for any sentinel-free string.
pub proof fn lemma_unsubst_subst(v: Seq<char>)
    requires
        sentinel_free(v),
    ensures
        unsubst_token(subst_token(v)) == v,
    decreases v.len(),
{
    reveal_strlit("PRIMECLUE_SPACE_SUBSTITUTE");
    let sent = spec_space_substitute();
    if v.len() == 0 {
    } else {
        lemma_sentinel_free_drop_first(v);
        lemma_unsubst_subst(v.drop_first());
        let t = subst_token(v);
        if v[0] == ' ' {
            assert(t == sent + subst_token(v.drop_first()));
            assert(t.len() >= sent.len());
            assert(t.subrange(0, sent.len() as int) =~= sent);
            assert(t.skip(sent.len() as int) =~= subst_token(v.drop_first()));
            assert(unsubst_token(t) =~= v);
        } else {
            assert(t == seq![v[0]] + subst_token(v.drop_first()));
            if t.len() >= sent.len() && t.subrange(0, sent.len() as int) == sent {
                assert(t[0] == v[0]);
                assert(t.subrange(0, sent.len() as int)[0] == t[0]);
                assert(v[0] == sent[0]);
                assert(begins_with(subst_token(v.drop_first()), sent.skip(1))) by {
                    assert(subst_token(v.drop_first()).subrange(0, sent.skip(1).len() as int)
                        =~= sent.skip(1)) by {
                        assert forall|j: int| 0 <= j < sent.len() - 1 implies #[trigger] subst_token(
                            v.drop_first(),
                        ).subrange(0, sent.skip(1).len() as int)[j] == sent.skip(1)[j] by {
                            assert(t.subrange(0, sent.len() as int)[j + 1] == sent[j + 1]);
                            assert(t[j + 1] == subst_token(v.drop_first())[j]);
                            assert(sent.skip(1)[j] == sent[j + 1]);
                        }
                    }
                }
                lemma_subst_match_is_literal(v.drop_first(), 1);
                assert(v.subrange(0, 0 + sent.len() as int) =~= sent) by {
                    assert forall|j: int| 0 <= j < sent.len() implies #[trigger] v.subrange(
                        0,
                        0 + sent.len() as int,
                    )[j] == sent[j] by {
                        if j > 0 {
                            assert(v.drop_first().subrange(0, sent.skip(1).len() as int)[j - 1]
                                == sent.skip(1)[j - 1]);
                            assert(v.drop_first()[j - 1] == v[j]);
                            assert(sent.skip(1)[j - 1] == sent[j]);
                        }
                    }
                }
                assert(v.len() >= sent.len());
                assert(false);
            }
            assert(t.len() > 0 && t[0] == v[0]);
            assert(t.drop_first() =~= subst_token(v.drop_first()));
            assert(unsubst_token(t) =~= v);
        }
    }
}

/// The substituted text of a printable ASCII string is a well-formed
/// token: non-empty, ASCII, and free of whitespace, spaces having been
/// replaced by the sentinel.
pub proof fn lemma_subst_token_wf(s: Seq<char>)
    requires
        s.len() > 0,
        forall|i: int|
            0 <= i < s.len() ==> ((#[trigger] s[i]) as u32) < 128 && (!is_ws_char(s[i]) || s[i]
                == ' '),
    ensures
        token_wf(subst_token(s)),
    decreases s.len(),
{
    reveal_strlit("PRIMECLUE_SPACE_SUBSTITUTE");
    let sent = spec_space_substitute();
    assert(forall|j: int|
        0 <= j < sent.len() ==> ((#[trigger] sent[j]) as u32) < 128 && !is_ws_char(sent[j]));
    let t = subst_token(s);
    if s.len() == 1 {
        assert(s.drop_first() =~= Seq::<char>::empty());
        assert(subst_token(s.drop_first()) =~= Seq::<char>::empty());
        if s[0] == ' ' {
            assert(t =~= sent);
        } else {
            assert(t =~= seq![s[0]]);
        }
    } else {
        assert(forall|i: int|
            0 <= i < s.len() - 1 ==> (#[trigger] s.drop_first()[i]) == s[i + 1]);
        lemma_subst_token_wf(s.drop_first());
    }
    assert(t.len() > 0);
    assert forall|i: int| 0 <= i < t.len() implies ((#[trigger] t[i]) as u32) < 128
        && !is_ws_char(t[i]) by {
        let rest = subst_token(s.drop_first());
        if s[0] == ' ' {
            assert(t == sent + rest);
            if i < sent.len() {
                assert(t[i] == sent[i]);
            } else {
                assert(t[i] == rest[i - sent.len()]);
                assert(token_wf(rest));
            }
        } else {
            assert(t == seq![s[0]] + rest);
            if i == 0 {
                assert(t[i] == s[0]);
            } else {
                assert(t[i] == rest[i - 1]);
                assert(token_wf(rest));
            }
        }
    }
    crate::text::lemma_ascii_chars_from_bounds(t);
}

/// The decimal rendering of a number is a well-formed token.
pub proof fn lemma_dec_token_wf(n: nat)
    ensures
        token_wf(dec_seq(n)),
        forall|i: int| 0 <= i < dec_seq(n).len() ==> (#[trigger] dec_seq(n)[i]) != ' ',
{
    lemma_dec_seq_digits(n);
    assert forall|i: int| 0 <= i < dec_seq(n).len() implies ((#[trigger] dec_seq(n)[i]) as u32)
        < 128 && !is_ws_char(dec_seq(n)[i]) && dec_seq(n)[i] != ' ' by {
        let c = dec_seq(n)[i];
        assert(is_digit(c));
        assert(c != ' ' && c != '\t' && c != '\n' && c != '\r' && c != '\u{b}' && c != '\u{c}');
    }
    crate::text::lemma_ascii_chars_from_bounds(dec_seq(n));
}

/// A linear scan that stops at the first hit computes `find_byte`.
proof fn lemma_find_byte_at(b: Seq<u8>, x: u8, i: int)
    requires
        0 <= i <= b.len(),
        forall|j: int| 0 <= j < i ==> b[j] != x,
        i < b.len() ==> b[i] == x,
    ensures
        i < b.len() ==> find_byte(b, x) == Some(i),
        i == b.len() ==> find_byte(b, x) is None,
    decreases b.len(),
{
    if b.len() == 0 {
    } else if i == 0 {
    } else {
        assert(b[0] != x);
        assert(forall|j: int| 0 <= j < i - 1 ==> #[trigger] b.drop_first()[j] == b[j + 1]);
        lemma_find_byte_at(b.drop_first(), x, i - 1);
    }
}

/// A scan to the first whitespace computes `ws_token_len`.
proof fn lemma_ws_token_len_exact(b: Seq<u8>, m: int)
    requires
        0 <= m <= b.len(),
        forall|k: int| 0 <= k < m ==> !is_ws_byte(#[trigger] b[k]),
        m < b.len() ==> is_ws_byte(b[m]),
    ensures
        ws_token_len(b) == m,
    decreases m,
{
    if m == 0 {
    } else {
        assert(!is_ws_byte(b[0]));
        assert(forall|k: int| 0 <= k < m - 1 ==> #[trigger] b.drop_first()[k] == b[k + 1]);
        lemma_ws_token_len_exact(b.drop_first(), m - 1);
    }
}

/// Skipping a leading whitespace byte does not change the split.
proof fn lemma_ws_split_skip_ws(b: Seq<u8>)
    requires
        b.len() > 0,
        is_ws_byte(b[0]),
    ensures
        ws_split(b) == ws_split(b.drop_first()),
{
}

/// Whether a byte is whitespace.
fn is_ws_b(b: u8) -> (r: bool)
    ensures
        r == is_ws_byte(b),
{
    b == 32 || b == 9 || b == 10 || b == 13 || b == 11 || b == 12
}

/// A fresh copy of the byte range `[from, to)`.
fn copy_range(v: &Vec<u8>, from: usize, to: usize) -> (r: Vec<u8>)
    requires
        from <= to <= v@.len(),
    ensures
        r@ == v@.subrange(from as int, to as int),
{
    let mut r: Vec<u8> = Vec::new();
    let mut i: usize = from;
    while i < to
        invariant
            from <= i <= to <= v@.len(),
            r@ == v@.subrange(from as int, i as int),
        decreases to - i,
    {
        r.push(v[i]);
        proof {
            assert(v@.subrange(from as int, i as int + 1) =~= v@.subrange(
                from as int,
                i as int,
            ).push(v@[i as int]));
        }
        i = i + 1;
    }
    r
}

/// On ASCII characters, byte whitespace and char whitespace agree.
proof fn lemma_ws_byte_char(c: char)
    requires
        (c as u32) < 128,
    ensures
        is_ws_byte(c as u8) == is_ws_char(c),
{
    lemma_ascii_char_byte_cast(c);
    broadcast use vstd::utf8::char_u32_cast;

}

/// Splitting the joined rendering of well-formed tokens gives back exactly
/// their byte sequences.
proof fn lemma_ws_split_joined(ts: Seq<Seq<char>>)
    requires
        tokens_wf(ts),
    ensures
        ws_split(joined_bytes(ts)) == Seq::new(ts.len(), |i: int| ascii_bytes(ts[i])),
    decreases ts.len(),
{
    broadcast use vstd::utf8::is_ascii_chars_nat_bound;

    if ts.len() == 0 {
        assert(ws_split(joined_bytes(ts)) =~= Seq::new(ts.len(), |i: int| ascii_bytes(ts[i])));
    } else {
        let t0 = ts[0];
        assert(token_wf(t0));
        let b0 = ascii_bytes(t0);
        let rest = joined_bytes(ts.drop_first());
        let joined = joined_bytes(ts);
        assert(joined == b0 + seq![32u8] + rest);
        lemma_ascii_bytes_chars(t0);
        assert forall|k: int| 0 <= k < b0.len() implies !is_ws_byte(#[trigger] joined[k]) by {
            assert(joined[k] == b0[k]);
            assert(b0[k] == t0[k] as u8);
            assert(t0[k] as nat <= 127);
            lemma_ws_byte_char(t0[k]);
            assert(!is_ws_char(t0[k]));
        }
        assert(joined[b0.len() as int] == 32);
        lemma_ws_token_len_exact(joined, b0.len() as int);
        assert(joined.len() > 0 && !is_ws_byte(joined[0]));
        assert(ws_split(joined) == seq![joined.take(b0.len() as int)] + ws_split(
            joined.skip(b0.len() as int),
        ));
        assert(joined.take(b0.len() as int) =~= b0);
        assert(joined.skip(b0.len() as int) =~= seq![32u8] + rest);
        lemma_ws_split_skip_ws(seq![32u8] + rest);
        assert((seq![32u8] + rest).drop_first() =~= rest);
        assert(tokens_wf(ts.drop_first())) by {
            assert(forall|i: int|
                0 <= i < ts.len() - 1 ==> #[trigger] ts.drop_first()[i] == ts[i + 1]);
        }
        lemma_ws_split_joined(ts.drop_first());
        assert(ws_split(joined) =~= Seq::new(ts.len(), |i: int| ascii_bytes(ts[i]))) by {
            assert(forall|i: int|
                0 <= i < ts.len() - 1 ==> #[trigger] ts.drop_first()[i] == ts[i + 1]);
        }
    }
}

/// Well-formed tokens are ASCII tokens.
pub proof fn lemma_tokens_wf_ascii(ts: Seq<Seq<char>>)
    requires
        tokens_wf(ts),
    ensures
        tokens_ascii(ts),
{
    assert forall|i: int| 0 <= i < ts.len() implies is_ascii_chars(#[trigger] ts[i]) by {
        assert(token_wf(ts[i]));
    }
}

/// The round trip of the stream encoding: rendering a stream of well-formed
/// tokens to bytes and reading the bytes back yields exactly the same
/// tokens.
pub proof fn lemma_stream_round_trip(ts: Seq<Seq<char>>)
    requires
        tokens_wf(ts),
    ensures
        spec_from_bytes(render_bytes(ts)) == Some(ts),
{
    broadcast use vstd::utf8::is_ascii_chars_nat_bound;

    lemma_tokens_wf_ascii(ts);
    lemma_checksum_bounds(ts);
    let cs = spec_checksum(ts);
    let dec = dec_seq(cs as nat);
    lemma_dec_seq_digits(cs as nat);
    let head = ascii_bytes(dec);
    let joined = joined_bytes(ts);
    let rb = render_bytes(ts);
    assert(rb == head + seq![32u8] + joined);
    // the decimal digits are ASCII and are not spaces
    assert forall|k: int| 0 <= k < head.len() implies #[trigger] head[k] < 128 && head[k] != 32
        && head[k] == rb[k] by {
        assert(head[k] == dec[k] as u8);
        assert(is_digit(dec[k]));
        lemma_ascii_char_byte_cast(dec[k]);
    }
    // every byte of the rendering is ASCII
    assert forall|k: int| 0 <= k < joined.len() implies #[trigger] joined[k] < 128 by {
        lemma_joined_ascii(ts, k);
    }
    assert(ascii_byte_seq(rb)) by {
        assert forall|k: int| 0 <= k < rb.len() implies #[trigger] rb[k] < 128 by {
            if k < head.len() {
            } else if k == head.len() {
                assert(rb[k] == 32);
            } else {
                assert(rb[k] == joined[k - head.len() - 1]);
            }
        }
    }
    // the first space stands right after the checksum digits
    lemma_find_byte_at(rb, 32, head.len() as int);
    assert(rb[head.len() as int] == 32);
    assert(find_byte(rb, 32) == Some(head.len() as int));
    // the checksum parses back
    assert(rb.take(head.len() as int) =~= head);
    assert(bytes_chars(head) =~= dec) by {
        assert forall|k: int| 0 <= k < dec.len() implies #[trigger] bytes_chars(head)[k]
            == dec[k] by {
            assert(head[k] == dec[k] as u8);
            assert(is_digit(dec[k]));
            lemma_ascii_char_byte_cast(dec[k]);
        }
    }
    assert(bytes_chars(rb.take(head.len() as int)) == dec);
    crate::numbers::lemma_parse_dec_seq(cs as u128);
    assert(spec_parse_u128(bytes_chars(rb.take(head.len() as int))) == Some(cs as u128));
    // the remainder splits back into the tokens
    assert(rb.skip(head.len() as int) =~= seq![32u8] + joined);
    lemma_ws_split_skip_ws(seq![32u8] + joined);
    assert((seq![32u8] + joined).drop_first() =~= joined);
    lemma_ws_split_joined(ts);
    let toks = ws_split(rb.skip(head.len() as int)).map_values(|t: Seq<u8>| bytes_chars(t));
    assert(toks =~= ts) by {
        assert forall|i: int| 0 <= i < ts.len() implies #[trigger] toks[i] == ts[i] by {
            assert(ws_split(rb.skip(head.len() as int))[i] == ascii_bytes(ts[i]));
            lemma_ascii_bytes_chars(ts[i]);
        }
    }
}

/// Every byte of the joined rendering of ASCII tokens is ASCII.
proof fn lemma_joined_ascii(ts: Seq<Seq<char>>, k: int)
    requires
        tokens_ascii(ts),
        0 <= k < joined_bytes(ts).len(),
    ensures
        joined_bytes(ts)[k] < 128,
    decreases ts.len(),
{
    broadcast use vstd::utf8::is_ascii_chars_nat_bound;

    if ts.len() > 0 {
        let b0 = ascii_bytes(ts[0]);
        if k < b0.len() {
            assert(joined_bytes(ts)[k] == b0[k]);
            assert(b0[k] == ts[0][k] as u8);
            assert(ts[0][k] as nat <= 127);
            lemma_ascii_char_byte_cast(ts[0][k]);
        } else if k == b0.len() {
            assert(joined_bytes(ts)[k] == 32);
        } else {
            assert(tokens_ascii(ts.drop_first())) by {
                assert(forall|i: int|
                    0 <= i < ts.len() - 1 ==> #[trigger] ts.drop_first()[i] == ts[i + 1]);
            }
            assert(joined_bytes(ts)[k] == joined_bytes(ts.drop_first())[k - b0.len() - 1]);
            lemma_joined_ascii(ts.drop_first(), k - b0.len() - 1);
        }
    }
}

/// Whether the string starts with the sentinel text.
fn has_sentinel_prefix(s: &str) -> (r: bool)
    ensures
        r == (s@.len() >= spec_space_substitute().len() && s@.subrange(
            0,
            spec_space_substitute().len() as int,
        ) == spec_space_substitute()),
{
    let sent = space_substitute();
    let n = s.unicode_len();
    let m = sent.unicode_len();
    if n < m {
        return false;
    }
    let mut i: usize = 0;
    while i < m
        invariant
            i <= m == spec_space_substitute().len(),
            sent@ == spec_space_substitute(),
            n == s@.len(),
            m <= n,
            forall|j: int| 0 <= j < i ==> s@[j] == spec_space_substitute()[j],
        decreases m - i,
    {
        if s.get_char(i) != sent.get_char(i) {
            proof {
                assert(s@.subrange(0, m as int)[i as int] != spec_space_substitute()[i as int]);
            }
            return false;
        }
        i = i + 1;
    }
    proof {
        assert(s@.subrange(0, m as int) =~= spec_space_substitute());
    }
    true
}

/// Replaces every sentinel occurrence by a space.
pub(crate) fn unsubstitute_spaces(s: &str) -> (r: String)
    ensures
        r@ == unsubst_token(s@),
    decreases s@.len(),
{
    proof {
        reveal_strlit("PRIMECLUE_SPACE_SUBSTITUTE");
    }
    let len = s.unicode_len();
    if len == 0 {
        return String::new();
    }
    if has_sentinel_prefix(s) {
        let sent_len = space_substitute().unicode_len();
        let rest = s.substring_char(sent_len, len);
        proof {
            assert(rest@ =~= s@.skip(spec_space_substitute().len() as int));
        }
        let tail = unsubstitute_spaces(rest);
        let mut out = " ".to_owned();
        out.append(tail.as_str());
        proof {
            reveal_strlit(" ");
            assert(" "@ =~= seq![' ']);
            assert(out@ =~= unsubst_token(s@));
        }
        out
    } else {
        let head = s.substring_char(0, 1);
        let rest = s.substring_char(1, len);
        proof {
            assert(rest@ =~= s@.drop_first());
            assert(head@ =~= seq![s@[0]]);
        }
        let tail = unsubstitute_spaces(rest);
        let mut out = head.to_owned();
        out.append(tail.as_str());
        proof {
            assert(out@ =~= unsubst_token(s@));
        }
        out
    }
}

/// Replaces every space by the sentinel text.
fn substitute_spaces(s: &str) -> (r: String)
    ensures
        r@ == subst_token(s@),
    decreases s@.len(),
{
    let len = s.unicode_len();
    if len == 0 {
        return String::new();
    }
    let c = s.get_char(0);
    let rest = s.substring_char(1, len);
    proof {
        assert(rest@ =~= s@.drop_first());
    }
    let tail = substitute_spaces(rest);
    if c == ' ' {
        let mut out = space_substitute().to_owned();
        out.append(tail.as_str());
        proof {
            assert(out@ =~= subst_token(s@));
        }
        out
    } else {
        let head = s.substring_char(0, 1);
        let mut out = head.to_owned();
        out.append(tail.as_str());
        proof {
            assert(head@ =~= seq![s@[0]]);
            assert(out@ =~= subst_token(s@));
        }
        out
    }
}

} // verus!
