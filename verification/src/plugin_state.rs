//! The plug-in state a project document carries: state blobs in hex, their
//! schema versions, and the bypass flags beside the plug-ins.
use vstd::prelude::*;
use vstd::utf8::encode_utf8;
use crate::text::{copy_str, decimal, push_decimal, push_str};

verus! {

/// The plug-in state schema this version writes.
pub const PLUGIN_STATE_SCHEMA_VERSION: u32 = 1;

/// The value of an ASCII hex digit byte.
pub open spec fn hex_value(b: u8) -> Option<u8> {
    if 48 <= b <= 57 {
        Some((b - 48) as u8)
    } else if 97 <= b <= 102 {
        Some((b - 87) as u8)
    } else if 65 <= b <= 70 {
        Some((b - 55) as u8)
    } else {
        None
    }
}

/// Every byte is an ASCII hex digit.
pub open spec fn all_hex(bs: Seq<u8>) -> bool {
    forall|i: int| 0 <= i < bs.len() ==> #[trigger] hex_value(bs[i]) is Some
}

/// The bytes two hex digits each stand for.
pub open spec fn hex_decoded(bs: Seq<u8>) -> Seq<u8> {
    Seq::new(bs.len() / 2, |i: int| (hex_value(bs[2 * i]).unwrap() * 16 + hex_value(bs[2 * i + 1]).unwrap()) as u8)
}

fn digit_value(b: u8) -> (r: Option<u8>)
    ensures
        r == hex_value(b),
{
    if 48 <= b && b <= 57 {
        Some(b - 48)
    } else if 97 <= b && b <= 102 {
        Some(b - 87)
    } else if 65 <= b && b <= 70 {
        Some(b - 55)
    } else {
        None
    }
}

/// The bytes a state blob in hex stands for: refused for an odd number of
/// bytes, or for a byte that is no hex digit.
pub fn decode_hex(value: &str) -> (r: Result<Vec<u8>, String>)
    ensures
        ({
            let bs = encode_utf8(value@);
            &&& bs.len() % 2 == 1 ==> (r matches Err(e) && e@ == "plugin state hex has odd length"@)
            &&& bs.len() % 2 == 0 && !all_hex(bs) ==> (r matches Err(e) && e@
                == "plugin state contains invalid hex"@)
            &&& bs.len() % 2 == 0 && all_hex(bs) ==> (r matches Ok(v) && v@ == hex_decoded(bs))
        }),
{
    let bytes = value.as_bytes();
    let ghost bs = bytes@;
    assert(bs == encode_utf8(value@));
    if bytes.len() % 2 != 0 {
        return Err(copy_str("plugin state hex has odd length"));
    }
    let mut out: Vec<u8> = Vec::new();
    let mut i: usize = 0;
    while i < bytes.len() / 2
        invariant
            bs == bytes@,
            bs == encode_utf8(value@),
            bs.len() % 2 == 0,
            i <= bs.len() / 2,
            forall|j: int| 0 <= j < 2 * i ==> #[trigger] hex_value(bs[j]) is Some,
            out@ == hex_decoded(bs.take(2 * i)),
        decreases bytes.len() / 2 - i,
    {
        let high = digit_value(bytes[2 * i]);
        let low = digit_value(bytes[2 * i + 1]);
        match (high, low) {
            (Some(h), Some(l)) => {
                let ghost before = out@;
                out.push(h * 16 + l);
                proof {
                    assert(out@ =~= hex_decoded(bs.take(2 * i + 2))) by {
                        assert forall|k: int| 0 <= k < i implies #[trigger] out@[k] == hex_decoded(bs.take(2 * i + 2))[k] by {
                            assert(before[k] == hex_decoded(bs.take(2 * i))[k]);
                        }
                    }
                }
                i += 1;
            },
            _ => {
                proof {
                    if high is None {
                        assert(hex_value(bs[2 * i as int]) is None);
                        assert(!all_hex(bs));
                    } else {
                        assert(hex_value(bs[2 * i + 1]) is None);
                        assert(!all_hex(bs));
                    }
                }
                return Err(copy_str("plugin state contains invalid hex"));
            },
        }
    }
    proof {
        assert(bs.take(2 * i as int) =~= bs);
    }
    Ok(out)
}

/// The schema version of each of `state_count` state blobs: the current
/// one for all when none is given, else each given version with the
/// unversioned 0 read as the current one; refused when the counts differ
/// or a version is unknown, naming the first unknown one.
pub fn state_versions(versions: &[u32], state_count: usize) -> (r: Result<Vec<u32>, String>)
    ensures
        versions@.len() == 0 ==> (r matches Ok(v) && v@ == Seq::new(state_count as nat, |i: int| PLUGIN_STATE_SCHEMA_VERSION)),
        versions@.len() > 0 && versions@.len() != state_count ==> (r matches Err(e) && e@
            == "plugin state version count does not match state count"@),
        versions@.len() > 0 && versions@.len() == state_count ==> match r {
            Ok(v) => v@ == Seq::new(state_count as nat, |i: int| PLUGIN_STATE_SCHEMA_VERSION) && forall|i: int|
                0 <= i < versions@.len() ==> #[trigger] versions@[i] <= PLUGIN_STATE_SCHEMA_VERSION,
            Err(e) => exists|k: int|
                0 <= k < versions@.len() && versions@[k] > PLUGIN_STATE_SCHEMA_VERSION && (forall|j: int|
                    0 <= j < k ==> #[trigger] versions@[j] <= PLUGIN_STATE_SCHEMA_VERSION) && e@
                    == "unsupported plugin state version "@ + decimal(versions@[k] as nat),
        },
{
    if versions.len() != 0 && versions.len() != state_count {
        return Err(copy_str("plugin state version count does not match state count"));
    }
    let mut out: Vec<u32> = Vec::new();
    let mut i: usize = 0;
    while i < state_count
        invariant
            versions@.len() == 0 || versions@.len() == state_count,
            i <= state_count,
            out@ == Seq::new(i as nat, |k: int| PLUGIN_STATE_SCHEMA_VERSION),
            versions@.len() > 0 ==> forall|j: int| 0 <= j < i ==> #[trigger] versions@[j] <= PLUGIN_STATE_SCHEMA_VERSION,
        decreases state_count - i,
    {
        if versions.len() > 0 && versions[i] > PLUGIN_STATE_SCHEMA_VERSION {
            let mut e = copy_str("unsupported plugin state version ");
            push_decimal(&mut e, versions[i] as u64);
            return Err(e);
        }
        out.push(PLUGIN_STATE_SCHEMA_VERSION);
        proof {
            assert(out@ =~= Seq::new((i + 1) as nat, |k: int| PLUGIN_STATE_SCHEMA_VERSION));
        }
        i += 1;
    }
    Ok(out)
}

/// The bypass flag of each of `plugin_count` plug-ins: none bypassed when
/// no flags are given, else the given flags; refused when the counts
/// differ.
pub fn plugin_bypasses(values: &[bool], plugin_count: usize) -> (r: Result<Vec<bool>, String>)
    ensures
        values@.len() == 0 ==> (r matches Ok(v) && v@ == Seq::new(plugin_count as nat, |i: int| false)),
        values@.len() > 0 && values@.len() != plugin_count ==> (r matches Err(e) && e@
            == "plugin bypass/type counts differ"@),
        values@.len() > 0 && values@.len() == plugin_count ==> (r matches Ok(v) && v@ == values@),
{
    let mut out: Vec<bool> = Vec::new();
    if values.len() == 0 {
        let mut i: usize = 0;
        while i < plugin_count
            invariant
                i <= plugin_count,
                out@ == Seq::new(i as nat, |k: int| false),
            decreases plugin_count - i,
        {
            out.push(false);
            proof {
                assert(out@ =~= Seq::new((i + 1) as nat, |k: int| false));
            }
            i += 1;
        }
        return Ok(out);
    }
    if values.len() != plugin_count {
        return Err(copy_str("plugin bypass/type counts differ"));
    }
    let mut i: usize = 0;
    while i < values.len()
        invariant
            i <= values@.len(),
            out@ == values@.take(i as int),
        decreases values.len() - i,
    {
        out.push(values[i]);
        proof {
            assert(values@.take(i + 1) =~= values@.take(i as int).push(values@[i as int]));
        }
        i += 1;
    }
    proof {
        assert(values@.take(i as int) =~= values@);
    }
    Ok(out)
}

} // verus!
