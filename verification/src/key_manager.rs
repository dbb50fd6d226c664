//! Deterministic spending-key derivation from a persistent seed: the key at
//! `index` is a function of `(master_seed, branch_seed, index)` alone, and the
//! issuance counter increases by one on every successful issuance.

use vstd::prelude::*;
use vstd::string::*;

use crate::error::OutputManagerError;
use crate::store::KmModel;
use crate::wrappers::blake2b_512;
use crate::wrappers::blake512_of;
use crate::wrappers::canonical_scalar;
use crate::wrappers::scalar_from_wide_bytes;
use crate::wrappers::wide_scalar_of;

verus! {

/// One byte of the little-endian encoding of a 64-bit integer.
pub open spec fn le_byte(x: u64, k: int) -> u8 {
    ((x as int / pow256(k)) % 256) as u8
}

/// Powers of 256 used by the little-endian encoding.
pub open spec fn pow256(k: int) -> int {
    if k <= 0 {
        1
    } else if k == 1 {
        0x100
    } else if k == 2 {
        0x1_0000
    } else if k == 3 {
        0x100_0000
    } else if k == 4 {
        0x1_0000_0000
    } else if k == 5 {
        0x100_0000_0000
    } else if k == 6 {
        0x1_0000_0000_0000
    } else {
        0x100_0000_0000_0000
    }
}

/// The little-endian byte encoding of a 64-bit integer.
pub open spec fn u64_le_bytes(x: u64) -> Seq<u8> {
    seq![
        le_byte(x, 0),
        le_byte(x, 1),
        le_byte(x, 2),
        le_byte(x, 3),
        le_byte(x, 4),
        le_byte(x, 5),
        le_byte(x, 6),
        le_byte(x, 7),
    ]
}

/// The byte string that is hashed to derive the key at `index`.
pub open spec fn derive_material(master: Seq<u8>, branch: Seq<u8>, index: u64) -> Seq<u8> {
    master + branch + u64_le_bytes(index)
}

/// The derived spending key: the wide reduction of the 64-byte digest of the
/// derivation material.
pub open spec fn derived_key_of(master: Seq<u8>, branch: Seq<u8>, index: u64) -> Seq<u8> {
    wide_scalar_of(blake512_of(derive_material(master, branch, index)))
}

/// Append the little-endian encoding of `x` to a byte vector.
pub fn push_u64_le(data: &mut Vec<u8>, x: u64)
    ensures
        final(data)@ == old(data)@ + u64_le_bytes(x),
{
    let ghost before = data@;
    data.push((x % 0x100) as u8);
    data.push(((x / 0x100) % 0x100) as u8);
    data.push(((x / 0x1_0000) % 0x100) as u8);
    data.push(((x / 0x100_0000) % 0x100) as u8);
    data.push(((x / 0x1_0000_0000) % 0x100) as u8);
    data.push(((x / 0x100_0000_0000) % 0x100) as u8);
    data.push(((x / 0x1_0000_0000_0000) % 0x100) as u8);
    data.push((x / 0x100_0000_0000_0000) as u8);
    proof {
        assert((x as int / pow256(7)) % 256 == x as int / 0x100_0000_0000_0000) by {
            assert(x as int / 0x100_0000_0000_0000 < 256);
        }
        assert(data@ =~= before + u64_le_bytes(x));
    }
}

/// The in-memory key manager. The issuance counter mirrors the one persisted
/// in the store; the service keeps the pair in lock step.
pub struct KeyManager {
    pub master_seed: [u8; 32],
    pub branch_seed: Vec<u8>,
    pub primary_key_index: u64,
}

impl View for KeyManager {
    type V = KmModel;

    open spec fn view(&self) -> KmModel {
        KmModel { master: self.master_seed@, branch: self.branch_seed@, index: self.primary_key_index }
    }
}

impl KeyManager {
    /// Construct a key manager from known parts.
    pub fn from(master_seed: [u8; 32], branch_seed: Vec<u8>, primary_key_index: u64) -> (r:
        KeyManager)
        ensures
            r@ == (KmModel { master: master_seed@, branch: branch_seed@, index: primary_key_index }),
    {
        let r = KeyManager { master_seed, branch_seed, primary_key_index };
        proof {
            assert(r@ =~= (KmModel {
                master: master_seed@,
                branch: branch_seed@,
                index: primary_key_index,
            }));
        }
        r
    }

    /// Derive the spending key at the given index. Pure: does not advance the
    /// issuance counter.
    pub fn derive_key(&self, key_index: u64) -> (r: [u8; 32])
        ensures
            r@ == derived_key_of(self@.master, self@.branch, key_index),
            canonical_scalar(r@),
    {
        let mut data: Vec<u8> = Vec::new();
        let mut i: usize = 0;
        while i < 32
            invariant
                i <= 32,
                data@ == self.master_seed@.take(i as int),
            decreases 32 - i,
        {
            data.push(self.master_seed[i]);
            proof {
                assert(data@ =~= self.master_seed@.take(i as int + 1));
            }
            i = i + 1;
        }
        proof {
            assert(self.master_seed@.take(32) =~= self.master_seed@);
        }
        let mut j: usize = 0;
        while j < self.branch_seed.len()
            invariant
                j <= self.branch_seed.len(),
                data@ == self.master_seed@ + self.branch_seed@.take(j as int),
            decreases self.branch_seed.len() - j,
        {
            data.push(self.branch_seed[j]);
            proof {
                assert(data@ =~= self.master_seed@ + self.branch_seed@.take(j as int + 1));
            }
            j = j + 1;
        }
        proof {
            assert(self.branch_seed@.take(self.branch_seed@.len() as int) =~= self.branch_seed@);
        }
        push_u64_le(&mut data, key_index);
        proof {
            assert(data@ =~= derive_material(self@.master, self@.branch, key_index));
        }
        let digest = blake2b_512(data.as_slice());
        scalar_from_wide_bytes(&digest)
    }

    /// Advance the issuance counter and derive the key at the new index.
    pub fn next_key(&mut self) -> (r: Result<[u8; 32], OutputManagerError>)
        ensures
            match r {
                Ok(k) => {
                    &&& old(self)@.index < u64::MAX
                    &&& final(self)@ == (KmModel {
                        index: (old(self)@.index + 1) as u64,
                        ..old(self)@
                    })
                    &&& k@ == derived_key_of(
                        old(self)@.master,
                        old(self)@.branch,
                        (old(self)@.index + 1) as u64,
                    )
                    &&& canonical_scalar(k@)
                },
                Err(e) => {
                    &&& e == OutputManagerError::KeyManagerError
                    &&& old(self)@.index == u64::MAX
                    &&& final(self)@ == old(self)@
                },
            },
    {
        if self.primary_key_index == u64::MAX {
            return Err(OutputManagerError::KeyManagerError);
        }
        self.primary_key_index = self.primary_key_index + 1;
        let k = self.derive_key(self.primary_key_index);
        proof {
            assert(final(self)@ =~= (KmModel {
                index: (old(self)@.index + 1) as u64,
                ..old(self)@
            }));
        }
        Ok(k)
    }
}

/// The word standing for one 4-bit group of the master seed in the wallet's
/// backup phrase.
pub open spec fn seed_word_for(n: int) -> Seq<char> {
    if n == 0 {
        "acid"@
    } else if n == 1 {
        "bear"@
    } else if n == 2 {
        "cloud"@
    } else if n == 3 {
        "drum"@
    } else if n == 4 {
        "echo"@
    } else if n == 5 {
        "flame"@
    } else if n == 6 {
        "gold"@
    } else if n == 7 {
        "harbor"@
    } else if n == 8 {
        "iron"@
    } else if n == 9 {
        "jade"@
    } else if n == 10 {
        "kite"@
    } else if n == 11 {
        "lemon"@
    } else if n == 12 {
        "moon"@
    } else if n == 13 {
        "north"@
    } else if n == 14 {
        "oak"@
    } else {
        "pearl"@
    }
}

/// The 4-bit group of the seed encoded by word `i` of the backup phrase:
/// the high half of each byte comes first.
pub open spec fn seed_nibble(master: Seq<u8>, i: int) -> int {
    if i % 2 == 0 {
        master[i / 2] as int / 16
    } else {
        master[i / 2] as int % 16
    }
}

/// The backup phrase of a master seed: sixty-four words, one per 4-bit group,
/// derived from the master seed alone.
pub fn seed_words_of_master(master: &[u8; 32]) -> (r: Vec<String>)
    ensures
        r@.len() == 64,
        forall|i: int| 0 <= i < 64 ==> (#[trigger] r@[i])@ == seed_word_for(seed_nibble(master@, i)),
{
    let mut out: Vec<String> = Vec::new();
    let mut i: usize = 0;
    while i < 64
        invariant
            i <= 64,
            out@.len() == i,
            forall|j: int|
                0 <= j < i ==> (#[trigger] out@[j])@ == seed_word_for(seed_nibble(master@, j)),
        decreases 64 - i,
    {
        let byte = master[i / 2];
        let nib: u8 = if i % 2 == 0 {
            byte / 16
        } else {
            byte % 16
        };
        let word: &str = if nib == 0 {
            "acid"
        } else if nib == 1 {
            "bear"
        } else if nib == 2 {
            "cloud"
        } else if nib == 3 {
            "drum"
        } else if nib == 4 {
            "echo"
        } else if nib == 5 {
            "flame"
        } else if nib == 6 {
            "gold"
        } else if nib == 7 {
            "harbor"
        } else if nib == 8 {
            "iron"
        } else if nib == 9 {
            "jade"
        } else if nib == 10 {
            "kite"
        } else if nib == 11 {
            "lemon"
        } else if nib == 12 {
            "moon"
        } else if nib == 13 {
            "north"
        } else if nib == 14 {
            "oak"
        } else {
            "pearl"
        };
        assert(word@ == seed_word_for(seed_nibble(master@, i as int)));
        out.push(String::from_str(word));
        i = i + 1;
    }
    out
}

} // verus!
