//! Reading one record of a memory-access trace.
use vstd::prelude::*;
use vstd::string::StringSliceAdditionalSpecFns;

verus! {

/// The kind of a memory access.
#[derive(Clone, Copy, Debug, PartialEq, Eq, Structural)]
pub enum AccessKind {
    Load,
    Store,
    /// A load immediately followed by a store to the same address.
    Modify,
    Instruction,
}

/// One access of a trace: what kind, and where.
#[derive(Clone, Copy, Debug, PartialEq, Eq, Structural)]
pub struct Access {
    pub kind: AccessKind,
    pub address: u64,
}

/// Why a data-access record could not be read.
#[derive(Clone, Copy, Debug, PartialEq, Eq, Structural)]
pub enum MalformedRecordError {
    /// The kind character is none of `L`, `S`, `M`, `I`.
    UnknownKind,
    /// No address follows the kind.
    MissingAddress,
    /// The address holds a character that is not a hexadecimal digit, or does
    /// not fit in 64 bits.
    InvalidAddress,
}

/// The character that opens a data-access record.
pub const MARKER: u8 = 0x20;

/// The character between the address and the size.
pub const FIELD_SEP: u8 = 0x2c;

/// The access kind that the character `c` codes for.
pub open spec fn kind_of(c: u8) -> Option<AccessKind> {
    if c == 0x4c {
        Some(AccessKind::Load)
    } else if c == 0x53 {
        Some(AccessKind::Store)
    } else if c == 0x4d {
        Some(AccessKind::Modify)
    } else if c == 0x49 {
        Some(AccessKind::Instruction)
    } else {
        None
    }
}

/// The value of the hexadecimal digit `c`, if it is one (either case).
pub open spec fn hex_digit(c: u8) -> Option<nat> {
    if 0x30 <= c <= 0x39 {
        Some((c - 0x30) as nat)
    } else if 0x61 <= c <= 0x66 {
        Some((c - 0x61 + 10) as nat)
    } else if 0x41 <= c <= 0x46 {
        Some((c - 0x41 + 10) as nat)
    } else {
        None
    }
}

/// Every byte of `s` is a hexadecimal digit.
pub open spec fn all_hex(s: Seq<u8>) -> bool {
    forall|i: int| 0 <= i < s.len() ==> (#[trigger] hex_digit(s[i])) is Some
}

/// The number that the hexadecimal digits `s` write, most significant first.
pub open spec fn hex_value(s: Seq<u8>) -> nat
    decreases s.len(),
{
    if s.len() == 0 {
        0
    } else {
        hex_value(s.drop_last()) * 16 + hex_digit(s.last()).unwrap_or(0)
    }
}

/// The first position at or after `i` that does not hold a space.
pub open spec fn skip_spaces(b: Seq<u8>, i: int) -> int
    decreases b.len() - i,
{
    if i < b.len() && b[i] == MARKER {
        skip_spaces(b, i + 1)
    } else {
        i
    }
}

/// The first position at or after `i` that holds the field separator, or the end.
pub open spec fn field_end(b: Seq<u8>, i: int) -> int
    decreases b.len() - i,
{
    if i < b.len() && b[i] != FIELD_SEP {
        field_end(b, i + 1)
    } else {
        i
    }
}

/// The address field of a data-access record: after the kind and its spaces, up
/// to the separator or the end.
pub open spec fn address_field(b: Seq<u8>) -> Seq<u8> {
    let start = skip_spaces(b, 2);
    b.subrange(start, field_end(b, start))
}

/// What the record `b` holds: `None` for a line that is no data access (it does
/// not open with the marker), else the access, or why it is malformed.
pub open spec fn parse_spec(b: Seq<u8>) -> Result<Option<Access>, MalformedRecordError> {
    if b.len() == 0 || b[0] != MARKER {
        Ok(None)
    } else if b.len() < 2 || kind_of(b[1]) is None {
        Err(MalformedRecordError::UnknownKind)
    } else if address_field(b).len() == 0 {
        Err(MalformedRecordError::MissingAddress)
    } else if !all_hex(address_field(b)) || hex_value(address_field(b)) > u64::MAX {
        Err(MalformedRecordError::InvalidAddress)
    } else {
        Ok(Some(Access { kind: kind_of(b[1]).unwrap(), address: hex_value(address_field(b)) as u64 }))
    }
}

/// A longer run of hexadecimal digits is worth at least as much as its prefix.
proof fn lemma_hex_value_prefix(s: Seq<u8>, n: int)
    requires
        0 <= n <= s.len(),
    ensures
        hex_value(s.subrange(0, n)) <= hex_value(s),
    decreases s.len() - n,
{
    if n < s.len() {
        lemma_hex_value_prefix(s, n + 1);
        let p = s.subrange(0, n + 1);
        assert(p.drop_last() =~= s.subrange(0, n));
    } else {
        assert(s.subrange(0, n) =~= s);
    }
}

fn kind_from(c: u8) -> (r: Option<AccessKind>)
    ensures
        r == kind_of(c),
{
    if c == 0x4c {
        Some(AccessKind::Load)
    } else if c == 0x53 {
        Some(AccessKind::Store)
    } else if c == 0x4d {
        Some(AccessKind::Modify)
    } else if c == 0x49 {
        Some(AccessKind::Instruction)
    } else {
        None
    }
}

fn digit_from(c: u8) -> (r: Option<u64>)
    ensures
        r matches Some(d) ==> hex_digit(c) == Some(d as nat) && d < 16,
        r is None ==> hex_digit(c) is None,
{
    if 0x30 <= c && c <= 0x39 {
        Some((c - 0x30) as u64)
    } else if 0x61 <= c && c <= 0x66 {
        Some((c - 0x61 + 10) as u64)
    } else if 0x41 <= c && c <= 0x46 {
        Some((c - 0x41 + 10) as u64)
    } else {
        None
    }
}

/// Reads one trace record: a line that does not open with a space is skipped
/// (`Ok(None)`); otherwise it must be a kind character, spaces, a hexadecimal
/// address and optionally a comma and a size, which is ignored.
pub fn parse_record(line: &str) -> (r: Result<Option<Access>, MalformedRecordError>)
    ensures
        r == parse_spec(line.spec_bytes()),
{
    let b = line.as_bytes();
    let ghost bs = b@;
    if b.len() == 0 || b[0] != MARKER {
        return Ok(None);
    }
    if b.len() < 2 {
        return Err(MalformedRecordError::UnknownKind);
    }
    let kind = match kind_from(b[1]) {
        Some(k) => k,
        None => {
            return Err(MalformedRecordError::UnknownKind);
        },
    };
    let mut start: usize = 2;
    while start < b.len() && b[start] == MARKER
        invariant
            b@ == bs,
            2 <= start <= bs.len(),
            skip_spaces(bs, start as int) == skip_spaces(bs, 2),
        decreases bs.len() - start,
    {
        start += 1;
    }
    let mut end: usize = start;
    while end < b.len() && b[end] != FIELD_SEP
        invariant
            b@ == bs,
            start <= end <= bs.len(),
            field_end(bs, end as int) == field_end(bs, start as int),
        decreases bs.len() - end,
    {
        end += 1;
    }
    let ghost field = bs.subrange(start as int, end as int);
    assert(field == address_field(bs));
    if end == start {
        return Err(MalformedRecordError::MissingAddress);
    }
    let mut value: u64 = 0;
    let mut k: usize = start;
    while k < end
        invariant
            b@ == bs,
            start <= k <= end <= bs.len(),
            start < end,
            bs == line.spec_bytes(),
            bs.len() >= 2 && bs[0] == MARKER && kind_of(bs[1]) is Some,
            field == address_field(bs),
            field == bs.subrange(start as int, end as int),
            all_hex(field.subrange(0, k - start)),
            value == hex_value(field.subrange(0, k - start)),
        decreases end - k,
    {
        let ghost n: int = k - start;
        let d = match digit_from(b[k]) {
            Some(d) => d,
            None => {
                assert(field[n as int] == bs[k as int]);
                assert(hex_digit(field[n as int]) is None);
                assert(!all_hex(field));
                return Err(MalformedRecordError::InvalidAddress);
            },
        };
        let ghost next = field.subrange(0, n + 1);
        assert(next.drop_last() =~= field.subrange(0, n as int));
        assert(next.last() == b@[k as int]);
        if value > (u64::MAX - d) / 16 {
            assert(hex_value(next) > u64::MAX) by (nonlinear_arith)
                requires
                    hex_value(next) == value * 16 + d,
                    value > (u64::MAX - d) / 16,
                    d < 16,
            {}
            proof {
                if all_hex(field) {
                    lemma_hex_value_prefix(field, n + 1);
                    assert(hex_value(field) > u64::MAX);
                }
            }
            return Err(MalformedRecordError::InvalidAddress);
        }
        assert(value * 16 + d <= u64::MAX) by (nonlinear_arith)
            requires
                value <= (u64::MAX - d) / 16,
                d < 16,
        {}
        value = value * 16 + d;
        k += 1;
        assert forall|i: int| 0 <= i < k - start implies (#[trigger] hex_digit(
            field.subrange(0, k - start)[i])) is Some by {
            if i < n {
                assert(field.subrange(0, k - start)[i] == field.subrange(0, n as int)[i]);
            }
        }
    }
    assert(field.subrange(0, end - start) =~= field);
    Ok(Some(Access { kind, address: value }))
}

} // verus!
