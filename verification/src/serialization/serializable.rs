//! The trait that every serializable value implements: it states, as a
//! mathematical token sequence, exactly what the value writes.

use vstd::prelude::*;

use crate::numbers::dec_seq;
use crate::serialization::serializator::{
    lemma_dec_token_wf, lemma_subst_token_id, sentinel_free, spec_space_substitute, subst_token,
    token_wf, tokens_wf, Serializator,
};

verus! {

/// A value that can write itself into a token stream.
pub trait Serializable {
    /// The tokens this value encodes to.
    spec fn ser_tokens(&self) -> Seq<Seq<char>>;

    /// Whether the encoding of this value is faithful: its tokens are well
    /// formed and deserialization returns the value unchanged.
    spec fn ser_ok(&self) -> bool;

    /// The tokens of a faithful value are well formed.
    proof fn lemma_ser_tokens_wf(&self)
        requires
            self.ser_ok(),
        ensures
            tokens_wf(self.ser_tokens()),
    ;

    /// Appends exactly `ser_tokens` to the stream.
    fn serialize(&self, s: &mut Serializator)
        ensures
            final(s).tokens() == old(s).tokens() + self.ser_tokens(),
            final(s).pos() == old(s).pos(),
    ;
}

/// The round trip of serialization, for any faithful value: rendering the
/// value's tokens to bytes and reading the bytes back yields exactly those
/// tokens, from which deserialization returns the value's content.
pub proof fn lemma_value_stream_round_trip<T: Serializable>(v: T)
    requires
        v.ser_ok(),
    ensures
        crate::serialization::serializator::spec_from_bytes(
            crate::serialization::serializator::render_bytes(v.ser_tokens()),
        ) == Some(v.ser_tokens()),
{
    v.lemma_ser_tokens_wf();
    crate::serialization::serializator::lemma_stream_round_trip(v.ser_tokens());
}

/// Two well-formed token lists in a row are a well-formed token list.
pub proof fn lemma_tokens_wf_concat(a: Seq<Seq<char>>, b: Seq<Seq<char>>)
    requires
        tokens_wf(a),
        tokens_wf(b),
    ensures
        tokens_wf(a + b),
{
    assert forall|i: int| 0 <= i < (a + b).len() implies token_wf(#[trigger] (a + b)[i]) by {
        if i < a.len() {
            assert((a + b)[i] == a[i]);
        } else {
            assert((a + b)[i] == b[i - a.len()]);
        }
    }
}

/// The tokens of a list of values, in order.
pub open spec fn elems_tokens<T: Serializable>(elems: Seq<T>) -> Seq<Seq<char>>
    decreases elems.len(),
{
    if elems.len() == 0 {
        Seq::empty()
    } else {
        elems[0].ser_tokens() + elems_tokens(elems.drop_first())
    }
}

/// The tokens of one more element come last.
pub proof fn lemma_elems_tokens_push<T: Serializable>(elems: Seq<T>, e: T)
    ensures
        elems_tokens(elems.push(e)) == elems_tokens(elems) + e.ser_tokens(),
    decreases elems.len(),
{
    reveal_with_fuel(elems_tokens, 3);
    if elems.len() == 0 {
        assert(elems.push(e)[0] == e);
        assert(elems.push(e).drop_first() =~= Seq::<T>::empty());
        assert(elems_tokens(elems.push(e)) =~= elems_tokens(elems) + e.ser_tokens());
    } else {
        assert(elems.push(e)[0] == elems[0]);
        assert(elems.push(e).drop_first() =~= elems.drop_first().push(e));
        lemma_elems_tokens_push(elems.drop_first(), e);
        assert(elems_tokens(elems.push(e)) =~= elems_tokens(elems) + e.ser_tokens());
    }
}

/// The tokens of a list of faithful values are well formed.
pub proof fn lemma_elems_tokens_wf<T: Serializable>(elems: Seq<T>)
    requires
        forall|i: int| 0 <= i < elems.len() ==> (#[trigger] elems[i]).ser_ok(),
    ensures
        tokens_wf(elems_tokens(elems)),
    decreases elems.len(),
{
    if elems.len() > 0 {
        elems[0].lemma_ser_tokens_wf();
        assert(forall|i: int|
            0 <= i < elems.len() - 1 ==> (#[trigger] elems.drop_first()[i]) == elems[i + 1]);
        lemma_elems_tokens_wf(elems.drop_first());
        lemma_tokens_wf_concat(elems[0].ser_tokens(), elems_tokens(elems.drop_first()));
    }
}

/// Tokens of the `usize` encoding: its decimal digits.
pub open spec fn usize_tokens(v: usize) -> Seq<Seq<char>> {
    seq![dec_seq(v as nat)]
}

impl Serializable for usize {
    open spec fn ser_tokens(&self) -> Seq<Seq<char>> {
        usize_tokens(*self)
    }

    open spec fn ser_ok(&self) -> bool {
        true
    }

    proof fn lemma_ser_tokens_wf(&self) {
        lemma_dec_token_wf(*self as nat);
    }

    fn serialize(&self, s: &mut Serializator) {
        let t = crate::numbers::u128_to_decimal(*self as u128);
        s.add_string(t);
        proof {
            lemma_dec_token_wf(*self as nat);
            lemma_subst_token_id(dec_seq(*self as nat));
            assert(final(s).tokens() =~= old(s).tokens() + self.ser_tokens());
        }
    }
}

impl Serializable for u16 {
    open spec fn ser_tokens(&self) -> Seq<Seq<char>> {
        seq![dec_seq(*self as nat)]
    }

    open spec fn ser_ok(&self) -> bool {
        true
    }

    proof fn lemma_ser_tokens_wf(&self) {
        lemma_dec_token_wf(*self as nat);
    }

    fn serialize(&self, s: &mut Serializator) {
        let t = crate::numbers::u128_to_decimal(*self as u128);
        s.add_string(t);
        proof {
            lemma_dec_token_wf(*self as nat);
            lemma_subst_token_id(dec_seq(*self as nat));
            assert(final(s).tokens() =~= old(s).tokens() + self.ser_tokens());
        }
    }
}

/// The token of the `bool` encoding.
pub open spec fn bool_token(v: bool) -> Seq<char> {
    if v {
        "true"@
    } else {
        "false"@
    }
}

/// The two boolean tokens are well formed, space-free, and distinct.
pub proof fn lemma_bool_token_wf(v: bool)
    ensures
        token_wf(bool_token(v)),
        forall|i: int| 0 <= i < bool_token(v).len() ==> (#[trigger] bool_token(v)[i]) != ' ',
        "true"@ != "false"@,
{
    reveal_strlit("true");
    reveal_strlit("false");
    assert forall|i: int| 0 <= i < bool_token(v).len() implies ((#[trigger] bool_token(
        v,
    )[i]) as u32) < 128 && !crate::serialization::serializator::is_ws_char(bool_token(v)[i])
        && bool_token(v)[i] != ' ' by {}
    crate::text::lemma_ascii_chars_from_bounds(bool_token(v));
    assert("true"@.len() == 4);
    assert("false"@.len() == 5);
}

impl Serializable for bool {
    open spec fn ser_tokens(&self) -> Seq<Seq<char>> {
        seq![bool_token(*self)]
    }

    open spec fn ser_ok(&self) -> bool {
        true
    }

    proof fn lemma_ser_tokens_wf(&self) {
        lemma_bool_token_wf(*self);
    }

    fn serialize(&self, s: &mut Serializator) {
        if *self {
            s.add_str("true");
        } else {
            s.add_str("false");
        }
        proof {
            lemma_bool_token_wf(*self);
            lemma_subst_token_id(bool_token(*self));
            assert(final(s).tokens() =~= old(s).tokens() + self.ser_tokens());
        }
    }
}

/// A string whose encoding is faithful: non-empty, ASCII, free of
/// whitespace other than spaces, and free of the sentinel text (a string
/// holding the sentinel text itself would come back with a space in its
/// place).
pub open spec fn string_ser_ok(s: Seq<char>) -> bool {
    &&& s.len() > 0
    &&& forall|i: int|
        0 <= i < s.len() ==> ((#[trigger] s[i]) as u32) < 128 && (
        !crate::serialization::serializator::is_ws_char(s[i]) || s[i] == ' ')
    &&& sentinel_free(s)
}

impl Serializable for String {
    open spec fn ser_tokens(&self) -> Seq<Seq<char>> {
        seq![subst_token(self@)]
    }

    open spec fn ser_ok(&self) -> bool {
        string_ser_ok(self@)
    }

    proof fn lemma_ser_tokens_wf(&self) {
        crate::serialization::serializator::lemma_subst_token_wf(self@);
    }

    fn serialize(&self, s: &mut Serializator) {
        s.add_string(self.clone());
        proof {
            assert(final(s).tokens() =~= old(s).tokens() + self.ser_tokens());
        }
    }
}

impl<T: Serializable, U: Serializable> Serializable for (T, U) {
    open spec fn ser_tokens(&self) -> Seq<Seq<char>> {
        self.0.ser_tokens() + self.1.ser_tokens()
    }

    open spec fn ser_ok(&self) -> bool {
        self.0.ser_ok() && self.1.ser_ok()
    }

    proof fn lemma_ser_tokens_wf(&self) {
        self.0.lemma_ser_tokens_wf();
        self.1.lemma_ser_tokens_wf();
        lemma_tokens_wf_concat(self.0.ser_tokens(), self.1.ser_tokens());
    }

    fn serialize(&self, s: &mut Serializator) {
        self.0.serialize(s);
        self.1.serialize(s);
        proof {
            assert(final(s).tokens() =~= old(s).tokens() + self.ser_tokens());
        }
    }
}

/// The tokens of the `Option` encoding: a discriminator, then the value.
pub open spec fn option_tokens<T: Serializable>(v: &Option<T>) -> Seq<Seq<char>> {
    match v {
        None => seq!["None"@],
        Some(x) => seq!["Some"@] + x.ser_tokens(),
    }
}

/// The two option discriminator tokens are well formed and distinct.
pub proof fn lemma_option_token_wf()
    ensures
        token_wf("None"@),
        token_wf("Some"@),
        forall|i: int| 0 <= i < "None"@.len() ==> (#[trigger] "None"@[i]) != ' ',
        forall|i: int| 0 <= i < "Some"@.len() ==> (#[trigger] "Some"@[i]) != ' ',
        "None"@ != "Some"@,
{
    reveal_strlit("None");
    reveal_strlit("Some");
    assert forall|i: int| 0 <= i < "None"@.len() implies ((#[trigger] "None"@[i]) as u32) < 128
        && !crate::serialization::serializator::is_ws_char("None"@[i]) && "None"@[i] != ' ' by {}
    assert forall|i: int| 0 <= i < "Some"@.len() implies ((#[trigger] "Some"@[i]) as u32) < 128
        && !crate::serialization::serializator::is_ws_char("Some"@[i]) && "Some"@[i] != ' ' by {}
    crate::text::lemma_ascii_chars_from_bounds("None"@);
    crate::text::lemma_ascii_chars_from_bounds("Some"@);
    assert("None"@[0] == 'N');
    assert("Some"@[0] == 'S');
}

impl<T: Serializable> Serializable for Option<T> {
    open spec fn ser_tokens(&self) -> Seq<Seq<char>> {
        option_tokens(self)
    }

    open spec fn ser_ok(&self) -> bool {
        match self {
            None => true,
            Some(x) => x.ser_ok(),
        }
    }

    proof fn lemma_ser_tokens_wf(&self) {
        lemma_option_token_wf();
        match self {
            None => {},
            Some(x) => {
                x.lemma_ser_tokens_wf();
                lemma_tokens_wf_concat(seq!["Some"@], x.ser_tokens());
            },
        }
    }

    fn serialize(&self, s: &mut Serializator) {
        proof {
            lemma_option_token_wf();
        }
        match self {
            None => {
                s.add_str("None");
                proof {
                    lemma_subst_token_id("None"@);
                    assert(final(s).tokens() =~= old(s).tokens() + self.ser_tokens());
                }
            },
            Some(x) => {
                s.add_str("Some");
                proof {
                    lemma_subst_token_id("Some"@);
                }
                x.serialize(s);
                proof {
                    assert(final(s).tokens() =~= old(s).tokens() + self.ser_tokens());
                }
            },
        }
    }
}

/// The tokens of the `Vec` encoding: the length, then every element.
pub open spec fn vec_tokens<T: Serializable>(v: &Vec<T>) -> Seq<Seq<char>> {
    seq![dec_seq(v@.len() as nat)] + elems_tokens(v@)
}

impl<T: Serializable> Serializable for Vec<T> {
    open spec fn ser_tokens(&self) -> Seq<Seq<char>> {
        vec_tokens(self)
    }

    open spec fn ser_ok(&self) -> bool {
        forall|i: int| 0 <= i < self@.len() ==> (#[trigger] self@[i]).ser_ok()
    }

    proof fn lemma_ser_tokens_wf(&self) {
        lemma_dec_token_wf(self@.len() as nat);
        lemma_elems_tokens_wf(self@);
        lemma_tokens_wf_concat(seq![dec_seq(self@.len() as nat)], elems_tokens(self@));
        assert(tokens_wf(seq![dec_seq(self@.len() as nat)]));
    }

    fn serialize(&self, s: &mut Serializator) {
        let n = self.len();
        n.serialize(s);
        let ghost head = old(s).tokens() + seq![dec_seq(self@.len() as nat)];
        let mut i: usize = 0;
        proof {
            assert(self@.take(0) =~= Seq::<T>::empty());
            assert(s.tokens() =~= head + elems_tokens(self@.take(0)));
        }
        while i < n
            invariant
                n == self@.len(),
                i <= n,
                head == old(s).tokens() + seq![dec_seq(self@.len() as nat)],
                s.tokens() == head + elems_tokens(self@.take(i as int)),
                s.pos() == old(s).pos(),
            decreases n - i,
        {
            let item: &T = &self[i];
            item.serialize(s);
            proof {
                lemma_elems_tokens_push(self@.take(i as int), self@[i as int]);
                assert(self@.take(i as int + 1) =~= self@.take(i as int).push(self@[i as int]));
                assert(s.tokens() =~= head + elems_tokens(self@.take(i as int + 1)));
            }
            i = i + 1;
        }
        proof {
            assert(self@.take(n as int) =~= self@);
            assert(final(s).tokens() =~= old(s).tokens() + self.ser_tokens());
        }
    }
}

} // verus!
