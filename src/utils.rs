use vstd::prelude::*;

verus! {

/// The integer whose set bits are the bit positions listed.
pub open spec fn bits_of(int_list: Seq<u8>) -> u32
    decreases int_list.len(),
{
    if int_list.len() == 0 {
        0
    } else {
        bits_of(int_list.drop_last()) | (1u32 << int_list.last())
    }
}

/// Convert an array of bit positions into an integer with those bits set.
/// Every position must name one of the 32 bits.
pub fn int_list_to_num(int_list: &[u8]) -> (r: u32)
    requires
        forall|i: int| 0 <= i < int_list@.len() ==> #[trigger] int_list@[i] < 32,
    ensures
        r == bits_of(int_list@),
{
    let mut flags: u32 = 0;
    let mut i: usize = 0;
    while i < int_list.len()
        invariant
            i <= int_list@.len(),
            forall|j: int| 0 <= j < int_list@.len() ==> #[trigger] int_list@[j] < 32,
            flags == bits_of(int_list@.take(i as int)),
        decreases int_list@.len() - i,
    {
        let flag = int_list[i];
        assert(flag < 32);
        flags = flags | (1u32 << flag);
        proof {
            assert(int_list@.take(i + 1).drop_last() =~= int_list@.take(i as int));
        }
        i = i + 1;
    }
    assert(int_list@.take(int_list@.len() as int) =~= int_list@);
    flags
}

/// Tests if all elements of a sequence have the same content.
pub fn is_all_the_same(items: &[u32]) -> (r: bool)
    ensures
        r == forall|i: int| 0 <= i < items@.len() ==> #[trigger] items@[i] == items@[0],
{
    if items.len() == 0 {
        return true;
    }
    let first = items[0];
    let mut i: usize = 1;
    while i < items.len()
        invariant
            1 <= i <= items@.len(),
            first == items@[0],
            forall|j: int| 0 <= j < i ==> #[trigger] items@[j] == items@[0],
        decreases items@.len() - i,
    {
        if items[i] != first {
            return false;
        }
        i = i + 1;
    }
    true
}

} // verus!
