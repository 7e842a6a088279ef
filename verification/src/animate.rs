//! The runtime locomotion clips and how an authored clip name selects one.

use vstd::prelude::*;
use vstd::string::StringSliceAdditionalSpecFns;
use vstd::utf8::encode_utf8;

verus! {

/// The standing clip.
pub const IDLE_CLIP_ID: u16 = 0;

/// The walking clip.
pub const WALK_CLIP_ID: u16 = 1;

/// The jogging clip.
pub const JOG_CLIP_ID: u16 = 2;

/// A byte with ASCII capitals lowered.
pub open spec fn ascii_lower(b: u8) -> u8 {
    if 65 <= b && b <= 90 {
        (b + 32) as u8
    } else {
        b
    }
}

/// `s` with ASCII capitals lowered.
pub open spec fn lowered(s: Seq<u8>) -> Seq<u8> {
    s.map_values(|b: u8| ascii_lower(b))
}

/// `part` occurs in `s`.
pub open spec fn has_part(s: Seq<u8>, part: Seq<u8>) -> bool {
    exists|i: int| 0 <= i <= s.len() - part.len() && #[trigger] s.subrange(i, i + part.len()) == part
}

/// The runtime clip an authored clip name selects: jogging, walking or idle
/// by the first of those words its lowered name contains.
pub open spec fn clip_for(name: Seq<u8>) -> Option<u16> {
    let l = lowered(name);
    if has_part(l, seq![106u8, 111, 103]) {
        Some(JOG_CLIP_ID)
    } else if has_part(l, seq![119u8, 97, 108, 107]) {
        Some(WALK_CLIP_ID)
    } else if has_part(l, seq![105u8, 100, 108, 101]) {
        Some(IDLE_CLIP_ID)
    } else {
        None
    }
}

/// Whether `part` occurs in `bytes` with ASCII capitals lowered.
fn contains_lowered(bytes: &[u8], part: &[u8]) -> (r: bool)
    requires
        part@.len() > 0,
    ensures
        r == has_part(lowered(bytes@), part@),
{
    let ghost l = lowered(bytes@);
    if bytes.len() < part.len() {
        proof {
            assert forall|i: int| !(0 <= i <= l.len() - part@.len() && #[trigger] l.subrange(i, i + part@.len()) == part@) by {}
        }
        return false;
    }
    let n = bytes.len();
    let last = n - part.len();
    let mut i: usize = 0;
    while i <= last
        invariant
            l == lowered(bytes@),
            part@.len() <= bytes@.len(),
            n == bytes@.len(),
            last == bytes@.len() - part@.len(),
            part@.len() > 0,
            i <= last + 1,
            forall|k: int| 0 <= k < i ==> #[trigger] l.subrange(k, k + part@.len()) != part@,
        decreases last + 1 - i,
    {
        let mut j: usize = 0;
        let mut same = true;
        while j < part.len() && same
            invariant
                l == lowered(bytes@),
                part@.len() <= bytes@.len(),
                n == bytes@.len(),
                i <= last,
                last == bytes@.len() - part@.len(),
                j <= part@.len(),
                same == forall|m: int| 0 <= m < j ==> l[i + m] == part@[m],
            decreases part@.len() - j,
        {
            let b = bytes[i + j];
            let lower = if 65 <= b && b <= 90 {
                b + 32
            } else {
                b
            };
            if lower != part[j] {
                same = false;
            }
            j = j + 1;
        }
        if same {
            proof {
                assert(l.subrange(i as int, i + part@.len()) =~= part@);
            }
            return true;
        }
        proof {
            let m = choose|m: int| 0 <= m < j && l[i + m] != part@[m];
            assert(l.subrange(i as int, i + part@.len())[m] != part@[m]);
        }
        i = i + 1;
    }
    false
}

/// The runtime clip an authored clip name selects, if any.
pub fn runtime_clip_id(clip_id: &str) -> (r: Option<u16>)
    ensures
        r == clip_for(encode_utf8(clip_id@)),
{
    let bytes = clip_id.as_bytes();
    let jog: [u8; 3] = [106, 111, 103];
    let walk: [u8; 4] = [119, 97, 108, 107];
    let idle: [u8; 4] = [105, 100, 108, 101];
    assert(jog@ =~= seq![106u8, 111, 103]);
    assert(walk@ =~= seq![119u8, 97, 108, 107]);
    assert(idle@ =~= seq![105u8, 100, 108, 101]);
    if contains_lowered(bytes, jog.as_slice()) {
        Some(JOG_CLIP_ID)
    } else if contains_lowered(bytes, walk.as_slice()) {
        Some(WALK_CLIP_ID)
    } else if contains_lowered(bytes, idle.as_slice()) {
        Some(IDLE_CLIP_ID)
    } else {
        None
    }
}

} // verus!
