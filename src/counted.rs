use vstd::prelude::*;
use crate::codec::{
    all_ser_ok, de_many, de_many_exec, ser_all, views, write_all, Deserialize, Serialize,
};
use crate::error::{DeserializationError, SerializationError};
use crate::primitives::{be16, fits, read16, read_u16, write_u16};
use crate::reader::ReaderContext;

verus! {

/// A sequence written after a 16-bit count of its items.
#[derive(Clone, Debug)]
pub struct Counted<T>(pub Vec<T>);

impl<T: View> View for Counted<T> {
    type V = Seq<T::V>;

    open spec fn view(&self) -> Seq<T::V> {
        views(self.0@)
    }
}

impl<T> From<Vec<T>> for Counted<T> {
    fn from(v: Vec<T>) -> (r: Counted<T>)
        ensures
            r.0@ == v@,
    {
        Counted(v)
    }
}

impl<T> vstd::std_specs::convert::FromSpecImpl<Vec<T>> for Counted<T> {
    open spec fn obeys_from_spec() -> bool {
        false
    }

    open spec fn from_spec(v: Vec<T>) -> Counted<T> {
        Counted(v)
    }
}

impl<T: Serialize> Serialize for Counted<T> {
    open spec fn ser_ok(&self) -> bool {
        self.0@.len() <= 0xFFFF && all_ser_ok(self.0@)
    }

    open spec fn ser_spec(&self) -> Seq<u8> {
        be16(self.0@.len() as u16) + ser_all(self.0@)
    }

    fn to_bytes(&self, data: &mut Vec<u8>) -> (r: Result<(), SerializationError>) {
        if self.0.len() > 0xFFFF {
            return Err(SerializationError::WidthOverflow);
        }
        let ghost start = data@;
        let mut out: Vec<u8> = Vec::new();
        let r = write_all(&self.0, &mut out);
        match r {
            Ok(()) => {
                write_u16(self.0.len() as u16, data);
                data.append(&mut out);
                assert(data@ =~= start + self.ser_spec());
                Ok(())
            },
            Err(e) => Err(e),
        }
    }
}

impl<T: Deserialize> Deserialize for Counted<T> {
    open spec fn de_spec(input: Seq<u8>, pos: int) -> Option<(Seq<T::V>, int)> {
        if fits(input, pos, 2) {
            de_many::<T>(input, pos + 2, read16(input, pos) as nat)
        } else {
            None
        }
    }

    fn from_bytes(c: &mut ReaderContext) -> (r: Result<Self, DeserializationError>) {
        match read_u16(c) {
            Ok(n) => match de_many_exec(c, n as usize) {
                Ok(v) => Ok(Counted(v)),
                Err(e) => Err(e),
            },
            Err(e) => Err(e),
        }
    }
}

} // verus!

verus! {

/// Whether every value of `T` reads back from its binary form, wherever it
/// stands.
pub open spec fn round_trips<T: Serialize + Deserialize>() -> bool {
    forall|v: T, before: Seq<u8>, after: Seq<u8>|
        #![trigger T::de_spec(before + v.ser_spec() + after, before.len() as int)]
        v.ser_ok() ==> T::de_spec(before + v.ser_spec() + after, before.len() as int) == Some(
            (v@, before.len() + v.ser_spec().len() as int),
        )
}

proof fn lemma_ser_all_front<T: Serialize>(s: Seq<T>)
    requires
        s.len() >= 1,
    ensures
        ser_all(s) == s[0].ser_spec() + ser_all(s.drop_first()),
    decreases s.len(),
{
    if s.len() == 1 {
        assert(s.drop_last() =~= Seq::<T>::empty());
        assert(s.drop_first() =~= Seq::<T>::empty());
        assert(ser_all(s) =~= s[0].ser_spec() + ser_all(s.drop_first()));
    } else {
        lemma_ser_all_front(s.drop_last());
        assert(s.drop_last().drop_first() =~= s.drop_first().drop_last());
        assert(s.drop_first().last() == s.last());
        assert(ser_all(s) =~= s[0].ser_spec() + ser_all(s.drop_first()));
    }
}

proof fn lemma_de_many_round_trip<T: Serialize + Deserialize>(s: Seq<T>, before: Seq<u8>, after: Seq<u8>)
    requires
        round_trips::<T>(),
        all_ser_ok(s),
    ensures
        de_many::<T>(before + ser_all(s) + after, before.len() as int, s.len()) == Some(
            (views(s), before.len() + ser_all(s).len() as int),
        ),
    decreases s.len(),
{
    if s.len() == 0 {
        assert(views(s) =~= Seq::<T::V>::empty());
    } else {
        lemma_ser_all_front(s);
        let rest = s.drop_first();
        let input = before + ser_all(s) + after;
        let b2 = before + s[0].ser_spec();
        assert(input =~= before + s[0].ser_spec() + (ser_all(rest) + after));
        assert(all_ser_ok(rest)) by {
            assert forall|i: int| 0 <= i < rest.len() implies #[trigger] rest[i].ser_ok() by {
                assert(rest[i] == s[i + 1]);
            }
        }
        assert(s[0].ser_ok());
        assert(T::de_spec(before + s[0].ser_spec() + (ser_all(rest) + after), before.len() as int)
            == Some((s[0]@, before.len() + s[0].ser_spec().len() as int)));
        lemma_de_many_round_trip(rest, b2, after);
        assert(b2 + ser_all(rest) + after =~= input);
        assert(views(s) =~= seq![s[0]@] + views(rest));
    }
}

/// A counted sequence of values that read back from their bytes reads back
/// from its own bytes, wherever they stand.
pub proof fn lemma_counted_round_trip<T: Serialize + Deserialize>(c: Counted<T>, before: Seq<u8>, after: Seq<u8>)
    requires
        round_trips::<T>(),
        c.ser_ok(),
    ensures
        Counted::<T>::de_spec(before + c.ser_spec() + after, before.len() as int) == Some(
            (c@, before.len() + c.ser_spec().len() as int),
        ),
{
    let n = c.0@.len() as u16;
    let input = before + c.ser_spec() + after;
    let b2 = before + be16(n);
    crate::primitives::lemma_u16_round_trip(n, before, ser_all(c.0@) + after);
    assert(input =~= before + be16(n) + (ser_all(c.0@) + after));
    assert(b2 + ser_all(c.0@) + after =~= input);
    lemma_de_many_round_trip(c.0@, b2, after);
}

/// Every 16-bit value reads back from its binary form, wherever it stands.
pub proof fn lemma_u16_round_trips()
    ensures
        round_trips::<u16>(),
{
    assert forall|v: u16, before: Seq<u8>, after: Seq<u8>|
        #![trigger u16::de_spec(before + v.ser_spec() + after, before.len() as int)]
        v.ser_ok() implies u16::de_spec(before + v.ser_spec() + after, before.len() as int) == Some(
            (v@, before.len() + v.ser_spec().len() as int),
        ) by {
        crate::primitives::lemma_u16_round_trip(v, before, after);
    }
}

} // verus!
