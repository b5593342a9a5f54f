//! Class identities: small integer tags for the target categories.

use vstd::prelude::*;

use crate::numbers::dec_seq;
use crate::serialization::deserializable::{tokens_at, Deserializable};
use crate::serialization::serializable::Serializable;
use crate::serialization::serializator::Serializator;

verus! {

/// An integer-tagged target category.
#[derive(Clone, Copy, Default, PartialEq, Eq, Structural, Debug, Hash)]
pub struct Class(u16);

impl Class {
    /// The class with the given tag.
    pub fn new(v: u16) -> (r: Class)
        ensures
            r.value() == v,
    {
        Class(v)
    }

    /// The class that stands for a boolean outcome.
    pub fn from(b: bool) -> (r: Class)
        ensures
            b ==> r.value() == 1,
            !b ==> r.value() == 0,
    {
        if b {
            Class::new(1)
        } else {
            Class::new(0)
        }
    }

    /// The tag, for specifications.
    pub closed spec fn spec_value(&self) -> u16 {
        self.0
    }

    /// The tag.
    #[verifier::when_used_as_spec(spec_value)]
    pub fn value(&self) -> (r: u16)
        ensures
            r == self.spec_value(),
    {
        self.0
    }
}

impl View for Class {
    type V = u16;

    closed spec fn view(&self) -> u16 {
        self.0
    }
}

impl DeepView for Class {
    type V = u16;

    open spec fn deep_view(&self) -> u16 {
        self.view()
    }
}

impl Serializable for Class {
    open spec fn ser_tokens(&self) -> Seq<Seq<char>> {
        seq![dec_seq(self.spec_value() as nat)]
    }

    open spec fn ser_ok(&self) -> bool {
        true
    }

    proof fn lemma_ser_tokens_wf(&self) {
        crate::serialization::serializator::lemma_dec_token_wf(self.spec_value() as nat);
    }

    fn serialize(&self, s: &mut Serializator) {
        let v = self.0;
        v.serialize(s);
        proof {
            assert(final(s).tokens() =~= old(s).tokens() + self.ser_tokens());
        }
    }
}

impl Deserializable for Class {
    fn deserialize(s: &mut Serializator) -> (r: Result<Class, String>)
        ensures
            r matches Ok(c) ==> old(s).pos() < old(s).tokens().len()
                && crate::numbers::spec_parse_u16(old(s).tokens()[old(s).pos()]) == Some(
                c.spec_value(),
            ) && final(s).pos() == old(s).pos() + 1,
    {
        let ghost t0 = s.tokens();
        let ghost p0 = s.pos();
        proof {
            assert forall|v: Class|
                v.ser_ok() && tokens_at(t0, p0, v.ser_tokens()) implies (v.spec_value()
                as u16).ser_ok() && tokens_at(t0, p0, (v.spec_value() as u16).ser_tokens()) by {
                assert(v.ser_tokens() =~= (v.spec_value() as u16).ser_tokens());
            }
        }
        match u16::deserialize(s) {
            Ok(v) => Ok(Class::new(v)),
            Err(e) => Err(e),
        }
    }
}

} // verus!
