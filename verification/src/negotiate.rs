//! The choice of a protocol from the name the peer picked.

use vstd::prelude::*;

verus! {

/// One of two alternatives.
pub enum Alt<L, R> {
    Lhs { l: L },
    Rhs { r: R },
}

impl<L, R> Alt<L, R> {
    pub fn lhs(l: L) -> (a: Self)
        ensures
            a == (Alt::<L, R>::Lhs { l }),
    {
        Alt::Lhs { l }
    }

    pub fn rhs(r: R) -> (a: Self)
        ensures
            a == (Alt::<L, R>::Rhs { r }),
    {
        Alt::Rhs { r }
    }
}

/// Something that speaks some protocols and can be asked for one by name.
pub trait Negotiate: Sized {
    /// What is handed out for a protocol that is spoken.
    type Handshake;

    /// Whether the protocol of this name is spoken.
    spec fn speaks(&self, proto: Seq<u8>) -> bool;

    /// What is handed out for the protocol of this name.
    spec fn chosen(self, proto: Seq<u8>) -> Self::Handshake;

    /// Asks for the protocol of the given name.
    fn negotiate(self, proto: &[u8]) -> (h: Option<Self::Handshake>)
        ensures
            h is Some <==> self.speaks(proto@),
            h matches Some(c) ==> c == self.chosen(proto@),
    ;
}

/// Two negotiators, of which the first is asked first.
pub struct Select<L, R>(pub L, pub R);

impl<L: Negotiate, R: Negotiate> Negotiate for Select<L, R> {
    type Handshake = Alt<L::Handshake, R::Handshake>;

    open spec fn speaks(&self, proto: Seq<u8>) -> bool {
        self.0.speaks(proto) || self.1.speaks(proto)
    }

    open spec fn chosen(self, proto: Seq<u8>) -> Alt<L::Handshake, R::Handshake> {
        if self.0.speaks(proto) {
            Alt::Lhs { l: self.0.chosen(proto) }
        } else {
            Alt::Rhs { r: self.1.chosen(proto) }
        }
    }

    fn negotiate(self, proto: &[u8]) -> (h: Option<Self::Handshake>) {
        let Select(l, r) = self;
        match l.negotiate(proto) {
            Some(c) => Some(Alt::lhs(c)),
            None => match r.negotiate(proto) {
                Some(c) => Some(Alt::rhs(c)),
                None => None,
            },
        }
    }
}

/// The protocol name of HTTP/1.1.
pub open spec fn http1_name() -> Seq<u8> {
    seq![104u8, 116u8, 116u8, 112u8, 47u8, 49u8, 46u8, 49u8]
}

/// The negotiator of HTTP/1.1, with the configuration of its connections.
pub struct Http1 {
    pub conf: crate::client::Config,
}

impl Negotiate for Http1 {
    type Handshake = Http1;

    open spec fn speaks(&self, proto: Seq<u8>) -> bool {
        proto == http1_name()
    }

    open spec fn chosen(self, proto: Seq<u8>) -> Http1 {
        self
    }

    fn negotiate(self, proto: &[u8]) -> (h: Option<Http1>) {
        if proto.len() == 8 && proto[0] == 104 && proto[1] == 116 && proto[2] == 116 && proto[3]
            == 112 && proto[4] == 47 && proto[5] == 49 && proto[6] == 46 && proto[7] == 49 {
            assert(proto@ =~= http1_name());
            Some(self)
        } else {
            proof {
                if proto@ == http1_name() {
                    assert(http1_name().len() == 8);
                    assert(http1_name()[0] == 104 && http1_name()[1] == 116 && http1_name()[2]
                        == 116 && http1_name()[3] == 112 && http1_name()[4] == 47
                        && http1_name()[5] == 49 && http1_name()[6] == 46 && http1_name()[7]
                        == 49);
                }
            }
            None
        }
    }
}

} // verus!
