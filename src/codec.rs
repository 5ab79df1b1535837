use vstd::prelude::*;
use crate::error::{DeserializationError, SerializationError};
use crate::reader::ReaderContext;

verus! {

/// A value with a binary form.
pub trait Serialize {
    /// Whether the value can be written (every count, length and offset fits
    /// its field).
    spec fn ser_ok(&self) -> bool;

    /// The bytes that the value is written as.
    spec fn ser_spec(&self) -> Seq<u8>;

    /// Appends the binary form of the value to `data`.
    fn to_bytes(&self, data: &mut Vec<u8>) -> (r: Result<(), SerializationError>)
        ensures
            r is Ok <==> self.ser_ok(),
            r is Ok ==> final(data)@ == old(data)@ + self.ser_spec(),
    ;
}

/// A value that can be read from its binary form.
pub trait Deserialize: Sized + View {
    /// What reading at `pos` in `input` yields: the value read and the
    /// position after it, or `None` where reading fails.
    spec fn de_spec(input: Seq<u8>, pos: int) -> Option<(Self::V, int)>;

    /// Reads one value at the reader's position.
    fn from_bytes(c: &mut ReaderContext) -> (r: Result<Self, DeserializationError>)
        ensures
            final(c).input@ == old(c).input@,
            final(c).origins() == old(c).origins(),
            match Self::de_spec(old(c).input@, old(c).ptr as int) {
                Some((v, end)) => r is Ok && r->Ok_0@ == v && final(c).ptr == end,
                None => r is Err,
            },
    ;
}

/// Something that values can be written into.
pub trait Serializer<T: Serialize> {
    /// Writes `data` at the end.
    fn put(&mut self, data: T) -> Result<(), SerializationError>;
}

/// Something that values can be read from.
pub trait Deserializer<T: Deserialize> {
    /// Reads one value.
    fn de(&mut self) -> Result<T, DeserializationError>;

    /// Reads `s` values one after the other.
    fn de_counted(&mut self, s: usize) -> Result<Vec<T>, DeserializationError>;
}

impl<T: Serialize> Serializer<T> for Vec<u8> {
    fn put(&mut self, data: T) -> (r: Result<(), SerializationError>)
        ensures
            r is Ok <==> data.ser_ok(),
            r is Ok ==> final(self)@ == old(self)@ + data.ser_spec(),
    {
        data.to_bytes(self)
    }
}

/// `r` and `end` are what reading one `T` at `pos` of `input` gives: the
/// value and the position after it where `de_spec` has one, else an error.
pub open spec fn read_outcome<T: Deserialize>(
    input: Seq<u8>,
    pos: int,
    r: Result<T, DeserializationError>,
    end: int,
) -> bool {
    match T::de_spec(input, pos) {
        Some((v, e)) => r is Ok && r->Ok_0@ == v && end == e,
        None => r is Err,
    }
}

/// `r` and `end` are what reading `n` values of type `T` one after the other
/// at `pos` of `input` gives.
pub open spec fn read_many_outcome<T: Deserialize>(
    input: Seq<u8>,
    pos: int,
    n: nat,
    r: Result<Vec<T>, DeserializationError>,
    end: int,
) -> bool {
    match de_many::<T>(input, pos, n) {
        Some((vs, e)) => r is Ok && views(r->Ok_0@) == vs && end == e,
        None => r is Err,
    }
}

/// What reading `n` values of type `T` one after the other yields.
pub open spec fn de_many<T: Deserialize>(input: Seq<u8>, pos: int, n: nat) -> Option<
    (Seq<T::V>, int),
>
    decreases n,
{
    if n == 0 {
        Some((Seq::empty(), pos))
    } else {
        match T::de_spec(input, pos) {
            Some((v, p)) => match de_many::<T>(input, p, (n - 1) as nat) {
                Some((vs, e)) => Some((seq![v] + vs, e)),
                None => None,
            },
            None => None,
        }
    }
}

/// The views of the items of `s`.
pub open spec fn views<T: View>(s: Seq<T>) -> Seq<T::V> {
    s.map_values(|x: T| x@)
}

pub(crate) fn de_many_exec<T: Deserialize>(c: &mut ReaderContext, n: usize) -> (r: Result<
    Vec<T>,
    DeserializationError,
>)
    ensures
        final(c).input@ == old(c).input@,
        final(c).origins() == old(c).origins(),
        read_many_outcome::<T>(old(c).input@, old(c).ptr as int, n as nat, r, final(c).ptr as int),
{
    let ghost input = c.input@;
    let ghost start = c.ptr as int;
    let ghost origins = c.origins();
    let mut out: Vec<T> = Vec::new();
    let mut i: usize = 0;
    while i < n
        invariant
            i <= n,
            input == old(c).input@,
            origins == old(c).origins(),
            start == old(c).ptr,
            c.input@ == input,
            c.origins() == origins,
            de_many::<T>(input, start, n as nat) == match de_many::<T>(
                input,
                c.ptr as int,
                (n - i) as nat,
            ) {
                Some((vs, e)) => Some((views(out@) + vs, e)),
                None => None,
            },
        decreases n - i,
    {
        let ghost before = out@;
        let v = T::from_bytes(c);
        match v {
            Ok(x) => {
                out.push(x);
                proof {
                    assert(views(out@) =~= views(before).push(x@));
                    assert forall|vs: Seq<T::V>| views(before) + (seq![x@] + vs) =~= views(out@)
                        + vs by {}
                }
            },
            Err(e) => {
                return Err(e);
            },
        }
        i = i + 1;
    }
    proof {
        assert(views(out@) + Seq::<T::V>::empty() =~= views(out@));
    }
    Ok(out)
}

impl<T: Deserialize> Deserializer<T> for ReaderContext {
    fn de(&mut self) -> (r: Result<T, DeserializationError>)
        ensures
            final(self).input@ == old(self).input@,
            final(self).origins() == old(self).origins(),
            read_outcome::<T>(old(self).input@, old(self).ptr as int, r, final(self).ptr as int),
    {
        T::from_bytes(self)
    }

    fn de_counted(&mut self, s: usize) -> (r: Result<Vec<T>, DeserializationError>)
        ensures
            final(self).input@ == old(self).input@,
            final(self).origins() == old(self).origins(),
            read_many_outcome::<T>(
                old(self).input@,
                old(self).ptr as int,
                s as nat,
                r,
                final(self).ptr as int,
            ),
    {
        de_many_exec(self, s)
    }
}

/// Writes `data` into a fresh buffer.
pub fn to_bytes<T: Serialize>(data: &T) -> (r: Result<Vec<u8>, SerializationError>)
    ensures
        r is Ok <==> data.ser_ok(),
        r is Ok ==> r->Ok_0@ == data.ser_spec(),
{
    let mut out: Vec<u8> = Vec::new();
    match data.to_bytes(&mut out) {
        Ok(()) => {
            assert(out@ =~= data.ser_spec());
            Ok(out)
        },
        Err(e) => Err(e),
    }
}

/// Reads one value from the start of `data`; bytes after it are ignored.
pub fn from_bytes<T: Deserialize>(data: &[u8]) -> (r: Result<T, DeserializationError>)
    ensures
        match T::de_spec(data@, 0) {
            Some((v, _)) => r is Ok && r->Ok_0@ == v,
            None => r is Err,
        },
{
    let mut copy: Vec<u8> = Vec::with_capacity(data.len());
    let mut i: usize = 0;
    while i < data.len()
        invariant
            i <= data@.len(),
            copy@ == data@.subrange(0, i as int),
        decreases data@.len() - i,
    {
        copy.push(data[i]);
        i = i + 1;
    }
    assert(copy@ =~= data@);
    let mut rc = ReaderContext::new(copy);
    T::from_bytes(&mut rc)
}

} // verus!

verus! {

/// Whether every item of `s` can be written.
pub open spec fn all_ser_ok<T: Serialize>(s: Seq<T>) -> bool {
    forall|i: int| 0 <= i < s.len() ==> #[trigger] s[i].ser_ok()
}

/// The binary forms of the items of `s`, one after the other.
pub open spec fn ser_all<T: Serialize>(s: Seq<T>) -> Seq<u8>
    decreases s.len(),
{
    if s.len() == 0 {
        Seq::empty()
    } else {
        ser_all(s.drop_last()) + s.last().ser_spec()
    }
}

/// Writes the items of `s` one after the other, stopping at the first that
/// cannot be written.
pub(crate) fn write_all<T: Serialize>(s: &Vec<T>, data: &mut Vec<u8>) -> (r: Result<
    (),
    SerializationError,
>)
    ensures
        r is Ok <==> all_ser_ok(s@),
        r is Ok ==> final(data)@ == old(data)@ + ser_all(s@),
{
    let mut i: usize = 0;
    while i < s.len()
        invariant
            i <= s@.len(),
            all_ser_ok(s@.subrange(0, i as int)),
            data@ == old(data)@ + ser_all(s@.subrange(0, i as int)),
        decreases s@.len() - i,
    {
        match s[i].to_bytes(data) {
            Ok(()) => {},
            Err(e) => {
                return Err(e);
            },
        }
        proof {
            let p = s@.subrange(0, i + 1);
            assert(p.drop_last() =~= s@.subrange(0, i as int));
            assert(data@ =~= old(data)@ + ser_all(p));
        }
        i = i + 1;
    }
    assert(s@.subrange(0, s@.len() as int) =~= s@);
    Ok(())
}

impl<T: Serialize> Serialize for Vec<T> {
    open spec fn ser_ok(&self) -> bool {
        all_ser_ok(self@)
    }

    open spec fn ser_spec(&self) -> Seq<u8> {
        ser_all(self@)
    }

    fn to_bytes(&self, data: &mut Vec<u8>) -> (r: Result<(), SerializationError>) {
        write_all(self, data)
    }
}

} // verus!

verus! {

/// What reading values of type `T` one after the other from `pos` yields,
/// stopping at the end of the input, at the first value that fails to read,
/// or at one that reads no bytes or ends past the input: the values and
/// where reading stopped.
pub open spec fn de_rest<T: Deserialize>(input: Seq<u8>, pos: int) -> (Seq<T::V>, int)
    decreases input.len() - pos,
{
    if pos < 0 || pos >= input.len() {
        (Seq::empty(), pos)
    } else {
        match T::de_spec(input, pos) {
            Some((v, p)) => if p <= pos || p > input.len() {
                (Seq::empty(), pos)
            } else {
                let rest = de_rest::<T>(input, p);
                (seq![v] + rest.0, rest.1)
            },
            None => (Seq::empty(), pos),
        }
    }
}

/// Reads values one after the other until the input is exhausted or a value
/// fails to read; the remaining bytes, not a count, decide how many there
/// are. A value that reads no bytes also ends the sequence. The reader stops
/// after the last value read.
pub fn de_until_end<T: Deserialize>(c: &mut ReaderContext) -> (r: Vec<T>)
    ensures
        final(c).input@ == old(c).input@,
        final(c).origins() == old(c).origins(),
        views(r@) == de_rest::<T>(old(c).input@, old(c).ptr as int).0,
        final(c).ptr == de_rest::<T>(old(c).input@, old(c).ptr as int).1,
{
    let ghost input = c.input@;
    let ghost start = c.ptr as int;
    let mut out: Vec<T> = Vec::new();
    loop
        invariant
            input == old(c).input@,
            start == old(c).ptr,
            c.input@ == input,
            c.origins() == old(c).origins(),
            de_rest::<T>(input, start) == (views(out@) + de_rest::<T>(input, c.ptr as int).0, de_rest::<T>(input, c.ptr as int).1),
        decreases input.len() - c.ptr,
    {
        let here = c.ptr;
        if here >= c.input.len() {
            proof {
                assert(views(out@) + Seq::<T::V>::empty() =~= views(out@));
            }
            return out;
        }
        match T::from_bytes(c) {
            Ok(x) => {
                if c.ptr <= here || c.ptr > c.input.len() {
                    c.ptr = here;
                    proof {
                        assert(views(out@) + Seq::<T::V>::empty() =~= views(out@));
                    }
                    return out;
                }
                let ghost before = out@;
                out.push(x);
                proof {
                    assert(views(out@) =~= views(before).push(x@));
                    assert(views(before) + (seq![x@] + de_rest::<T>(input, c.ptr as int).0) =~= views(out@) + de_rest::<T>(input, c.ptr as int).0);
                }
            },
            Err(_) => {
                c.ptr = here;
                proof {
                    assert(views(out@) + Seq::<T::V>::empty() =~= views(out@));
                }
                return out;
            },
        }
    }
}

} // verus!

verus! {

impl<T: Serialize> Serialize for Option<T> {
    /// An absent value writes nothing.
    open spec fn ser_ok(&self) -> bool {
        match self {
            Some(v) => v.ser_ok(),
            None => true,
        }
    }

    open spec fn ser_spec(&self) -> Seq<u8> {
        match self {
            Some(v) => v.ser_spec(),
            None => Seq::empty(),
        }
    }

    fn to_bytes(&self, data: &mut Vec<u8>) -> (r: Result<(), SerializationError>) {
        match self {
            Some(v) => v.to_bytes(data),
            None => {
                assert(data@ =~= old(data)@ + Seq::<u8>::empty());
                Ok(())
            },
        }
    }
}

} // verus!
