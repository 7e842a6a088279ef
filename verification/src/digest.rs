//! Content hashes of canonical project sources.
//!
//! A compiled project is identified by the BLAKE3 digest of its canonical
//! source bytes, shown as 64 lowercase hexadecimal characters.

use vstd::prelude::*;

verus! {

/// The BLAKE3 digest of `input`: what `blake3::hash` returns for these bytes.
pub uninterp spec fn blake3_digest(input: Seq<u8>) -> Seq<u8>;

/// Calls `blake3::hash`, the default BLAKE3 hash, and returns its 32 bytes.
/// The contract claims only that the digest depends on the input bytes alone:
/// it is the same name applied to the same bytes.
#[verifier::external_body]
fn blake3_hash(input: &[u8]) -> (r: [u8; 32])
    ensures
        r@ == blake3_digest(input@),
{
    *blake3::hash(input).as_bytes()
}

/// The digest that identifies a canonical source.
pub fn source_hash(canonical: &[u8]) -> (r: [u8; 32])
    ensures
        r@ == blake3_digest(canonical@),
{
    blake3_hash(canonical)
}

/// The lowercase hexadecimal digit of `d`.
pub open spec fn hex_digit(d: nat) -> char {
    if d < 10 {
        ((48 + d) as u32) as char
    } else {
        ((87 + d) as u32) as char
    }
}

/// Two lowercase hexadecimal digits per byte, high nibble first.
pub open spec fn hex_text(bytes: Seq<u8>) -> Seq<char>
    decreases bytes.len(),
{
    if bytes.len() == 0 {
        Seq::empty()
    } else {
        hex_text(bytes.drop_last()) + seq![hex_digit((bytes.last() / 16) as nat), hex_digit((bytes.last() % 16) as nat)]
    }
}

fn hex_digit_str(d: u8) -> (r: &'static str)
    requires
        d < 16,
    ensures
        r@ == seq![hex_digit(d as nat)],
{
    match d {
        0 => {
            proof {
                reveal_strlit("0");
            }
            "0"
        },
        1 => {
            proof {
                reveal_strlit("1");
            }
            "1"
        },
        2 => {
            proof {
                reveal_strlit("2");
            }
            "2"
        },
        3 => {
            proof {
                reveal_strlit("3");
            }
            "3"
        },
        4 => {
            proof {
                reveal_strlit("4");
            }
            "4"
        },
        5 => {
            proof {
                reveal_strlit("5");
            }
            "5"
        },
        6 => {
            proof {
                reveal_strlit("6");
            }
            "6"
        },
        7 => {
            proof {
                reveal_strlit("7");
            }
            "7"
        },
        8 => {
            proof {
                reveal_strlit("8");
            }
            "8"
        },
        9 => {
            proof {
                reveal_strlit("9");
            }
            "9"
        },
        10 => {
            proof {
                reveal_strlit("a");
            }
            "a"
        },
        11 => {
            proof {
                reveal_strlit("b");
            }
            "b"
        },
        12 => {
            proof {
                reveal_strlit("c");
            }
            "c"
        },
        13 => {
            proof {
                reveal_strlit("d");
            }
            "d"
        },
        14 => {
            proof {
                reveal_strlit("e");
            }
            "e"
        },
        _ => {
            proof {
                reveal_strlit("f");
            }
            "f"
        },
    }
}

/// The digest as 64 lowercase hexadecimal characters.
pub fn hash_hex(hash: &[u8; 32]) -> (r: String)
    ensures
        r@ == hex_text(hash@),
{
    let mut out = String::new();
    let mut i: usize = 0;
    proof {
        assert(hash@.take(0) =~= Seq::<u8>::empty());
    }
    while i < 32
        invariant
            i <= 32,
            hash@.len() == 32,
            out@ == hex_text(hash@.take(i as int)),
        decreases 32 - i,
    {
        let b = hash[i];
        out.append(hex_digit_str(b / 16));
        out.append(hex_digit_str(b % 16));
        proof {
            let t = hash@.take(i + 1);
            assert(t.drop_last() =~= hash@.take(i as int));
            assert(t.last() == b);
        }
        i = i + 1;
    }
    proof {
        assert(hash@.take(32) =~= hash@);
    }
    out
}

} // verus!
