//! Long names: the records in front of an entry that spell its name in
//! 16-bit units.

use vstd::prelude::*;
use crate::bytes::read_le16;

verus! {

/// The number of 16-bit units that one long-name record holds.
pub const UNITS_PER_RECORD: usize = 13;

/// Where unit `k` of a long-name record starts: five units from byte 1
/// on, six from byte 14 on, two from byte 28 on.
pub open spec fn unit_offset(k: int) -> int {
    if k < 5 {
        1 + 2 * k
    } else if k < 11 {
        14 + 2 * (k - 5)
    } else {
        28 + 2 * (k - 11)
    }
}

/// The 13 units of a long-name record.
pub open spec fn long_units(record: Seq<u8>) -> Seq<u16> {
    Seq::new(13, |k: int| crate::bytes::le16(record, unit_offset(k)) as u16)
}

/// Whether a unit is part of a name: 0 ends a name, and `0xFFFF` pads
/// the record behind the end.
pub open spec fn is_name_unit(unit: u16) -> bool {
    unit != 0 && unit != 0xFFFF
}

/// The index of the first unit from `from` on that is no part of a name,
/// or the number of units where there is none.
pub open spec fn name_end(units: Seq<u16>, from: int) -> int
    decreases units.len() - from,
{
    if from >= units.len() {
        units.len() as int
    } else if !is_name_unit(units[from]) {
        from
    } else {
        name_end(units, from + 1)
    }
}

/// The UTF-8 bytes of one unit, taken as a code point of its own.
pub open spec fn encode_unit(unit: u16) -> Seq<u8> {
    if unit < 0x80 {
        seq![unit as u8]
    } else if unit < 0x800 {
        seq![(0xC0 + unit / 0x40) as u8, (0x80 + unit % 0x40) as u8]
    } else {
        seq![
            (0xE0 + unit / 0x1000) as u8,
            (0x80 + (unit / 0x40) % 0x40) as u8,
            (0x80 + unit % 0x40) as u8,
        ]
    }
}

/// The UTF-8 bytes of a sequence of units.
pub open spec fn encode_units(units: Seq<u16>) -> Seq<u8>
    decreases units.len(),
{
    if units.len() == 0 {
        Seq::empty()
    } else {
        encode_units(units.drop_last()) + encode_unit(units.last())
    }
}

/// The name that the units spell: the units up to the first that ends
/// the name, as UTF-8.
pub open spec fn long_name(units: Seq<u16>) -> Seq<u8> {
    encode_units(units.take(name_end(units, 0)))
}

/// Where unit `k` of a long-name record starts.
pub fn unit_position(k: usize) -> (at: usize)
    requires
        k < 13,
    ensures
        at == unit_offset(k as int),
        at + 2 <= 32,
{
    if k < 5 {
        1 + 2 * k
    } else if k < 11 {
        14 + 2 * (k - 5)
    } else {
        28 + 2 * (k - 11)
    }
}

/// Reads the 13 units of a long-name record.
pub fn read_long_units(record: &[u8]) -> (units: Vec<u16>)
    requires
        record@.len() == 32,
    ensures
        units@ == long_units(record@),
{
    let mut units: Vec<u16> = Vec::new();
    let mut k: usize = 0;
    while k < UNITS_PER_RECORD
        invariant
            k <= 13,
            record@.len() == 32,
            units@.len() == k,
            forall|j: int| 0 <= j < k ==> units@[j] == long_units(record@)[j],
        decreases 13 - k,
    {
        let at: usize = unit_position(k);
        units.push(read_le16(record, at));
        k += 1;
    }
    assert(units@ =~= long_units(record@));
    units
}

/// The units of `front` followed by those of `back`.
pub fn join_units(front: Vec<u16>, back: &Vec<u16>) -> (joined: Vec<u16>)
    ensures
        joined@ == front@ + back@,
{
    let mut joined: Vec<u16> = front;
    let mut i: usize = 0;
    while i < back.len()
        invariant
            i <= back@.len(),
            joined@ == front@ + back@.take(i as int),
        decreases back@.len() - i,
    {
        joined.push(back[i]);
        i += 1;
        assert(joined@ =~= front@ + back@.take(i as int));
    }
    assert(back@.take(back@.len() as int) =~= back@);
    joined
}

/// Appends the UTF-8 bytes of one unit to `name`.
pub fn push_unit(name: &mut Vec<u8>, unit: u16)
    ensures
        final(name)@ == old(name)@ + encode_unit(unit),
{
    if unit < 0x80 {
        name.push(unit as u8);
    } else if unit < 0x800 {
        name.push((0xC0 + unit / 0x40) as u8);
        name.push((0x80 + unit % 0x40) as u8);
    } else {
        name.push((0xE0 + unit / 0x1000) as u8);
        name.push((0x80 + (unit / 0x40) % 0x40) as u8);
        name.push((0x80 + unit % 0x40) as u8);
    }
    assert(name@ =~= old(name)@ + encode_unit(unit));
}

/// The name that the units spell.
pub fn read_long_name(units: &[u16]) -> (name: Vec<u8>)
    ensures
        name@ == long_name(units@),
{
    let mut name: Vec<u8> = Vec::new();
    let mut i: usize = 0;
    while i < units.len() && units[i] != 0 && units[i] != 0xFFFF
        invariant
            i <= units@.len(),
            name_end(units@, 0) == name_end(units@, i as int),
            name@ == encode_units(units@.take(i as int)),
        decreases units@.len() - i,
    {
        proof {
            let next = units@.take(i + 1);
            assert(next.drop_last() =~= units@.take(i as int));
            assert(next.last() == units@[i as int]);
        }
        push_unit(&mut name, units[i]);
        i += 1;
    }
    name
}

} // verus!
