//! The trait that reads values back from a token stream, with the round
//! trip stated in its contract: whenever the stream holds the encoding of a
//! faithful value at the cursor, deserialization returns a value with the
//! same content and consumes exactly the encoding's tokens.

use vstd::prelude::*;

use crate::numbers::{
    dec_seq, lemma_parse_dec_seq_u16, lemma_parse_dec_seq_usize, parse_u16, parse_usize,
};
use crate::serialization::serializable::{
    bool_token, elems_tokens, lemma_bool_token_wf, lemma_elems_tokens_push, lemma_option_token_wf,
    Serializable,
};
use crate::serialization::serializator::{
    lemma_unsubst_subst, unsubst_token, unsubstitute_spaces, Serializator,
};

verus! {

/// The stream holds exactly `ts` at position `pos`.
pub open spec fn tokens_at(tokens: Seq<Seq<char>>, pos: int, ts: Seq<Seq<char>>) -> bool {
    &&& 0 <= pos
    &&& pos + ts.len() <= tokens.len()
    &&& tokens.subrange(pos, pos + ts.len() as int) == ts
}

/// Holding two token lists in a row means holding each at its place.
pub proof fn lemma_tokens_at_concat(
    tokens: Seq<Seq<char>>,
    pos: int,
    a: Seq<Seq<char>>,
    b: Seq<Seq<char>>,
)
    requires
        tokens_at(tokens, pos, a + b),
    ensures
        tokens_at(tokens, pos, a),
        tokens_at(tokens, pos + a.len(), b),
{
    assert(tokens.subrange(pos, pos + a.len() as int) =~= a) by {
        assert forall|i: int| 0 <= i < a.len() implies #[trigger] tokens.subrange(
            pos,
            pos + a.len() as int,
        )[i] == a[i] by {
            assert(tokens.subrange(pos, pos + (a + b).len() as int)[i] == (a + b)[i]);
        }
    }
    assert(tokens.subrange(pos + a.len(), pos + a.len() + b.len() as int) =~= b) by {
        assert forall|i: int| 0 <= i < b.len() implies #[trigger] tokens.subrange(
            pos + a.len(),
            pos + a.len() + b.len() as int,
        )[i] == b[i] by {
            assert(tokens.subrange(pos, pos + (a + b).len() as int)[a.len() + i] == (a + b)[a.len()
                + i]);
        }
    }
}

/// A single held token is the token under the cursor.
pub proof fn lemma_tokens_at_first(tokens: Seq<Seq<char>>, pos: int, ts: Seq<Seq<char>>)
    requires
        tokens_at(tokens, pos, ts),
        ts.len() >= 1,
    ensures
        tokens[pos] == ts[0],
{
    assert(tokens.subrange(pos, pos + ts.len() as int)[0] == ts[0]);
}

/// A value that can be read back from a token stream.
pub trait Deserializable: Serializable + DeepView + Sized {
    /// Reads one value from the cursor onward.
    fn deserialize(s: &mut Serializator) -> (r: Result<Self, String>)
        ensures
            final(s).tokens() == old(s).tokens(),
            old(s).pos() <= final(s).pos(),
            forall|v: Self|
                (v.ser_ok() && tokens_at(old(s).tokens(), old(s).pos(), v.ser_tokens())) ==> ((r
                    matches Ok(w) && w.deep_view() == v.deep_view()) && final(s).pos() == old(
                    s,
                ).pos() + v.ser_tokens().len()),
    ;
}

impl Deserializable for usize {
    fn deserialize(s: &mut Serializator) -> (r: Result<usize, String>)
        ensures
            r matches Ok(n) ==> old(s).pos() < old(s).tokens().len()
                && crate::numbers::spec_parse_usize(old(s).tokens()[old(s).pos()]) == Some(n)
                && final(s).pos() == old(s).pos() + 1,
    {
        let ghost t0 = s.tokens();
        let ghost p0 = s.pos();
        let tok = match s.next_token() {
            Ok(t) => t,
            Err(e) => {
                return Err(e);
            },
        };
        match parse_usize(tok.as_str()) {
            Some(n) => {
                proof {
                    assert forall|v: usize|
                        v.ser_ok() && tokens_at(t0, p0, v.ser_tokens()) implies n == v by {
                        lemma_tokens_at_first(t0, p0, v.ser_tokens());
                        lemma_parse_dec_seq_usize(v);
                    }
                }
                Ok(n)
            },
            None => {
                proof {
                    assert forall|v: usize|
                        v.ser_ok() && tokens_at(t0, p0, v.ser_tokens()) implies false by {
                        lemma_tokens_at_first(t0, p0, v.ser_tokens());
                        lemma_parse_dec_seq_usize(v);
                    }
                }
                let mut m = "Unable to parse '".to_owned();
                m.append(tok.as_str());
                m.append("'");
                Err(m)
            },
        }
    }
}

impl Deserializable for u16 {
    fn deserialize(s: &mut Serializator) -> (r: Result<u16, String>)
        ensures
            r matches Ok(n) ==> old(s).pos() < old(s).tokens().len()
                && crate::numbers::spec_parse_u16(old(s).tokens()[old(s).pos()]) == Some(n)
                && final(s).pos() == old(s).pos() + 1,
    {
        let ghost t0 = s.tokens();
        let ghost p0 = s.pos();
        let tok = match s.next_token() {
            Ok(t) => t,
            Err(e) => {
                return Err(e);
            },
        };
        match parse_u16(tok.as_str()) {
            Some(n) => {
                proof {
                    assert forall|v: u16|
                        v.ser_ok() && tokens_at(t0, p0, v.ser_tokens()) implies n == v by {
                        lemma_tokens_at_first(t0, p0, v.ser_tokens());
                        lemma_parse_dec_seq_u16(v);
                    }
                }
                Ok(n)
            },
            None => {
                proof {
                    assert forall|v: u16|
                        v.ser_ok() && tokens_at(t0, p0, v.ser_tokens()) implies false by {
                        lemma_tokens_at_first(t0, p0, v.ser_tokens());
                        lemma_parse_dec_seq_u16(v);
                    }
                }
                let mut m = "Unable to parse '".to_owned();
                m.append(tok.as_str());
                m.append("'");
                Err(m)
            },
        }
    }
}

impl Deserializable for bool {
    fn deserialize(s: &mut Serializator) -> (r: Result<bool, String>)
        ensures
            r matches Ok(b) ==> old(s).pos() < old(s).tokens().len() && old(s).tokens()[old(
                s,
            ).pos()] == bool_token(b) && final(s).pos() == old(s).pos() + 1,
    {
        let ghost t0 = s.tokens();
        let ghost p0 = s.pos();
        let tok = match s.next_token() {
            Ok(t) => t,
            Err(e) => {
                return Err(e);
            },
        };
        proof {
            lemma_bool_token_wf(true);
            lemma_bool_token_wf(false);
        }
        let r = if tok == "true".to_owned() {
            Ok(true)
        } else if tok == "false".to_owned() {
            Ok(false)
        } else {
            let mut m = "Unable to parse '".to_owned();
            m.append(tok.as_str());
            m.append("'");
            Err(m)
        };
        proof {
            assert forall|v: bool|
                v.ser_ok() && tokens_at(t0, p0, v.ser_tokens()) implies tok@ == bool_token(v) by {
                lemma_tokens_at_first(t0, p0, v.ser_tokens());
            }
        }
        r
    }
}

impl Deserializable for String {
    fn deserialize(s: &mut Serializator) -> (r: Result<String, String>)
        ensures
            r matches Ok(w) ==> old(s).pos() < old(s).tokens().len() && w@ == unsubst_token(
                old(s).tokens()[old(s).pos()],
            ) && final(s).pos() == old(s).pos() + 1,
            r is Err ==> old(s).pos() >= old(s).tokens().len(),
    {
        let ghost t0 = s.tokens();
        let ghost p0 = s.pos();
        let tok = match s.next_token() {
            Ok(t) => t,
            Err(e) => {
                return Err(e);
            },
        };
        let out = unsubstitute_spaces(tok.as_str());
        proof {
            assert forall|v: String|
                v.ser_ok() && tokens_at(t0, p0, v.ser_tokens()) implies out@ == v@ by {
                lemma_tokens_at_first(t0, p0, v.ser_tokens());
                lemma_unsubst_subst(v@);
            }
        }
        Ok(out)
    }
}

impl<T: Deserializable, U: Deserializable> Deserializable for (T, U) {
    fn deserialize(s: &mut Serializator) -> (r: Result<(T, U), String>) {
        let ghost t0 = s.tokens();
        let ghost p0 = s.pos();
        proof {
            assert forall|v: (T, U)|
                v.ser_ok() && tokens_at(t0, p0, v.ser_tokens()) implies (v.0.ser_ok()
                && tokens_at(t0, p0, v.0.ser_tokens())) by {
                lemma_tokens_at_concat(t0, p0, v.0.ser_tokens(), v.1.ser_tokens());
            }
        }
        let a = match T::deserialize(s) {
            Ok(a) => a,
            Err(e) => {
                return Err(e);
            },
        };
        proof {
            assert forall|v: (T, U)|
                v.ser_ok() && tokens_at(t0, p0, v.ser_tokens()) implies (v.1.ser_ok()
                && tokens_at(t0, p0 + v.0.ser_tokens().len(), v.1.ser_tokens())
                && s.pos() == p0 + v.0.ser_tokens().len()) by {
                lemma_tokens_at_concat(t0, p0, v.0.ser_tokens(), v.1.ser_tokens());
            }
        }
        let b = match U::deserialize(s) {
            Ok(b) => b,
            Err(e) => {
                return Err(e);
            },
        };
        proof {
            assert forall|v: (T, U)|
                v.ser_ok() && tokens_at(t0, p0, v.ser_tokens()) implies ((a, b).deep_view()
                == v.deep_view() && s.pos() == p0 + v.ser_tokens().len()) by {
                lemma_tokens_at_concat(t0, p0, v.0.ser_tokens(), v.1.ser_tokens());
            }
        }
        Ok((a, b))
    }
}

impl<T: Deserializable> Deserializable for Option<T> {
    fn deserialize(s: &mut Serializator) -> (r: Result<Option<T>, String>)
        ensures
            r matches Ok(w) ==> old(s).pos() < old(s).tokens().len() && (match w {
                None => old(s).tokens()[old(s).pos()] == "None"@ && final(s).pos() == old(
                    s,
                ).pos() + 1,
                Some(_) => old(s).tokens()[old(s).pos()] == "Some"@,
            }),
    {
        let ghost t0 = s.tokens();
        let ghost p0 = s.pos();
        let tok = match s.next_token() {
            Ok(t) => t,
            Err(e) => {
                return Err(e);
            },
        };
        proof {
            lemma_option_token_wf();
            assert forall|v: Option<T>|
                v.ser_ok() && tokens_at(t0, p0, v.ser_tokens()) implies tok@ == (match v {
                None => "None"@,
                Some(_) => "Some"@,
            }) by {
                lemma_tokens_at_first(t0, p0, v.ser_tokens());
                match v {
                    Some(x) => {
                        assert((seq!["Some"@] + x.ser_tokens())[0] == "Some"@);
                    },
                    None => {},
                }
            }
        }
        if tok == "None".to_owned() {
            Ok(None)
        } else if tok == "Some".to_owned() {
            proof {
                assert forall|v: Option<T>|
                    v.ser_ok() && tokens_at(t0, p0, v.ser_tokens()) implies (v matches Some(x)
                    && x.ser_ok() && tokens_at(t0, p0 + 1, x.ser_tokens())) by {
                    match v {
                        Some(x) => {
                            lemma_tokens_at_concat(t0, p0, seq!["Some"@], x.ser_tokens());
                        },
                        None => {},
                    }
                }
            }
            match T::deserialize(s) {
                Ok(x) => {
                    proof {
                        assert forall|v: Option<T>|
                            v.ser_ok() && tokens_at(t0, p0, v.ser_tokens()) implies (Some(
                            x,
                        ).deep_view() == v.deep_view() && s.pos() == p0
                            + v.ser_tokens().len()) by {
                            match v {
                                Some(y) => {
                                    lemma_tokens_at_concat(t0, p0, seq!["Some"@], y.ser_tokens());
                                },
                                None => {},
                            }
                        }
                    }
                    Ok(Some(x))
                },
                Err(e) => Err(e),
            }
        } else {
            let mut m = "Invalid token when deserializing Option: '".to_owned();
            m.append(tok.as_str());
            m.append("'");
            Err(m)
        }
    }
}

/// The encoding of `v` stands at `pos` and `v` is faithful: the hypothesis
/// of the round-trip clause, named so that loop invariants can quantify
/// over it.
pub open spec fn holds_encoding_of<T: Serializable>(
    tokens: Seq<Seq<char>>,
    pos: int,
    v: T,
) -> bool {
    v.ser_ok() && tokens_at(tokens, pos, v.ser_tokens())
}

impl<T: Deserializable> Deserializable for Vec<T> {
    fn deserialize(s: &mut Serializator) -> (r: Result<Vec<T>, String>)
        ensures
            r matches Ok(w) ==> (old(s).pos() < old(s).tokens().len()
                && (crate::numbers::spec_parse_usize(old(s).tokens()[old(s).pos()]) matches Some(
                n,
            ) && n == w@.len())),
    {
        let ghost t0 = s.tokens();
        let ghost p0 = s.pos();
        proof {
            assert forall|v: Vec<T>| #[trigger]
                holds_encoding_of(t0, p0, v) implies ((v@.len() as usize).ser_ok() && tokens_at(
                t0,
                p0,
                (v@.len() as usize).ser_tokens(),
            )) by {
                assert(vstd::std_specs::vec::spec_vec_len(&v) == v@.len());
                lemma_tokens_at_concat(t0, p0, seq![dec_seq(v@.len() as nat)], elems_tokens(v@));
            }
        }
        let len = match usize::deserialize(s) {
            Ok(n) => n,
            Err(e) => {
                proof {
                    assert forall|v: Vec<T>|
                        v.ser_ok() && tokens_at(t0, p0, v.ser_tokens()) implies false by {
                        assert(holds_encoding_of(t0, p0, v));
                    }
                }
                return Err(e);
            },
        };
        let mut out: Vec<T> = Vec::new();
        let mut k: usize = 0;
        proof {
            assert forall|v: Vec<T>| #[trigger]
                holds_encoding_of(t0, p0, v) implies (v@.len() == len as int && s.pos() == p0 + 1
                + elems_tokens(v@.take(0)).len() && tokens_at(
                t0,
                s.pos(),
                elems_tokens(v@.skip(0)),
            )) by {
                assert(vstd::std_specs::vec::spec_vec_len(&v) == v@.len());
                lemma_tokens_at_concat(t0, p0, seq![dec_seq(v@.len() as nat)], elems_tokens(v@));
                assert(v@.take(0) =~= Seq::<T>::empty());
                assert(v@.skip(0) =~= v@);
            }
        }
        while k < len
            invariant
                t0 == old(s).tokens(),
                p0 == old(s).pos(),
                s.tokens() == t0,
                p0 <= s.pos(),
                k <= len,
                out@.len() == k as int,
                forall|v: Vec<T>| #[trigger]
                    holds_encoding_of(t0, p0, v) ==> {
                        &&& v@.len() == len as int
                        &&& (forall|m: int|
                            0 <= m < k as int ==> (#[trigger] out@[m]).deep_view()
                                == v@[m].deep_view())
                        &&& s.pos() == p0 + 1 + elems_tokens(v@.take(k as int)).len()
                        &&& tokens_at(t0, s.pos(), elems_tokens(v@.skip(k as int)))
                    },
            decreases len - k,
        {
            let ghost pk = s.pos();
            let ghost out0 = out@;
            proof {
                assert forall|v: Vec<T>| #[trigger]
                    holds_encoding_of(t0, p0, v) implies (v@[k as int].ser_ok() && tokens_at(
                    t0,
                    pk,
                    v@[k as int].ser_tokens(),
                )) by {
                    assert(v@.skip(k as int)[0] == v@[k as int]);
                    assert(v@.skip(k as int).drop_first() =~= v@.skip(k as int + 1));
                    assert(elems_tokens(v@.skip(k as int)) == v@[k as int].ser_tokens()
                        + elems_tokens(v@.skip(k as int + 1)));
                    lemma_tokens_at_concat(
                        t0,
                        pk,
                        v@[k as int].ser_tokens(),
                        elems_tokens(v@.skip(k as int + 1)),
                    );
                }
            }
            let item = match T::deserialize(s) {
                Ok(x) => x,
                Err(e) => {
                    proof {
                        assert forall|v: Vec<T>|
                            v.ser_ok() && tokens_at(t0, p0, v.ser_tokens()) implies false by {
                            assert(holds_encoding_of(t0, p0, v));
                        }
                    }
                    return Err(e);
                },
            };
            out.push(item);
            proof {
                assert forall|v: Vec<T>| #[trigger]
                    holds_encoding_of(t0, p0, v) implies ((forall|m: int|
                        0 <= m < k as int + 1 ==> (#[trigger] out@[m]).deep_view()
                            == v@[m].deep_view()) && s.pos() == p0 + 1 + elems_tokens(
                        v@.take(k as int + 1),
                    ).len() && tokens_at(t0, s.pos(), elems_tokens(v@.skip(k as int + 1)))) by {
                        assert(v@.skip(k as int)[0] == v@[k as int]);
                        assert(v@.skip(k as int).drop_first() =~= v@.skip(k as int + 1));
                        assert(elems_tokens(v@.skip(k as int)) == v@[k as int].ser_tokens()
                            + elems_tokens(v@.skip(k as int + 1)));
                        lemma_tokens_at_concat(
                            t0,
                            pk,
                            v@[k as int].ser_tokens(),
                            elems_tokens(v@.skip(k as int + 1)),
                        );
                        lemma_elems_tokens_push(v@.take(k as int), v@[k as int]);
                        assert(v@.take(k as int + 1) =~= v@.take(k as int).push(v@[k as int]));
                        assert forall|m: int|
                            0 <= m < k as int + 1 implies (#[trigger] out@[m]).deep_view()
                            == v@[m].deep_view() by {
                            if m < k as int {
                                assert(out@[m] == out0[m]);
                            }
                        }
                    }
            }
            k = k + 1;
        }
        proof {
            assert forall|v: Vec<T>|
                v.ser_ok() && tokens_at(t0, p0, v.ser_tokens()) implies (out.deep_view()
                == v.deep_view() && s.pos() == p0 + v.ser_tokens().len()) by {
                assert(holds_encoding_of(t0, p0, v));
                assert(v@.take(len as int) =~= v@);
                assert(out.deep_view() =~= v.deep_view()) by {
                    assert forall|m: int| 0 <= m < len as int implies #[trigger] out.deep_view()[m]
                        == v.deep_view()[m] by {
                        assert(out@[m].deep_view() == v@[m].deep_view());
                    }
                }
            }
        }
        Ok(out)
    }
}

} // verus!
