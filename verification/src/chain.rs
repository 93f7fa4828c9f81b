//! The chain-adapter-facing types: configuration, the adapter identity with
//! its parsed chain revision, and height stamping. The adapter's network
//! calls live outside the library; what is verified here is the data model
//! and the `<name>-<revision-number>` parsing of a chain's self-reported
//! identifier.

use vstd::prelude::*;

use crate::cache::{cache_contents, ChecksumCache};

verus! {

broadcast use vstd::seq_lib::group_seq_properties;

/// A height relative to a chain revision.
#[derive(Debug, Clone, Copy, PartialEq, Eq, Structural)]
pub struct Height {
    pub revision: u64,
    pub height: u64,
}

impl Height {
    pub fn new_with_revision(revision: u64, height: u64) -> (r: Height)
        ensures
            r == (Height { revision, height }),
    {
        Height { revision, height }
    }
}

/// One signing key of the rotation: a display name and the raw private-key
/// bytes it was configured with.
#[derive(Debug, PartialEq, Eq)]
pub struct KeyEntry {
    pub name: String,
    pub value: Vec<u8>,
}

/// The configured signer rotation.
#[derive(Debug, PartialEq, Eq)]
pub struct KeyringConfig {
    pub name: String,
    pub keys: Vec<KeyEntry>,
}

/// Gas settings the adapter submits transactions under.
#[derive(Debug, PartialEq, Eq)]
pub struct GasConfig {
    pub gas_denom: String,
    pub gas_price: u64,
    pub max_gas: u64,
}

/// Startup configuration of one chain adapter.
#[derive(Debug, PartialEq, Eq)]
pub struct Config {
    pub keyring: KeyringConfig,
    pub ws_url: String,
    pub prover_endpoints: Vec<String>,
    pub grpc_url: String,
    pub gas_config: GasConfig,
}

/// Why building the adapter identity failed.
#[derive(Debug, PartialEq, Eq)]
pub enum UnionInitError {
    /// The chain's RPC endpoint could not be reached at startup; carries the
    /// transport's message.
    Tendermint { message: String },
    /// The chain's self-reported identifier does not match the expected
    /// `<name>-<revision-number>` format.
    ChainIdParse { found: String },
}

pub open spec fn is_digit(c: char) -> bool {
    48 <= c as u32 && c as u32 <= 57
}

pub open spec fn all_digits(s: Seq<char>) -> bool {
    forall|i: int| 0 <= i < s.len() ==> is_digit(#[trigger] s[i])
}

/// The number a string of decimal digits denotes.
pub open spec fn dec_value(s: Seq<char>) -> int
    decreases s.len(),
{
    if s.len() == 0 {
        0
    } else {
        dec_value(s.drop_last()) * 10 + (s.last() as u32 - 48)
    }
}

/// What follows the last `-` of a chain identifier; the whole identifier if
/// it has none.
pub open spec fn rev_suffix(s: Seq<char>) -> Seq<char> {
    match s.index_of_last('-') {
        Some(i) => s.skip(i + 1),
        None => s,
    }
}

proof fn lemma_dec_value_nonneg(s: Seq<char>)
    requires
        all_digits(s),
    ensures
        dec_value(s) >= 0,
    decreases s.len(),
{
    if s.len() > 0 {
        let dl = s.drop_last();
        assert(forall|i: int| 0 <= i < dl.len() ==> #[trigger] dl[i] == s[i]);
        lemma_dec_value_nonneg(dl);
        assert(is_digit(s[s.len() - 1]));
    }
}

proof fn lemma_dec_value_take(s: Seq<char>, m: int)
    requires
        all_digits(s),
        0 <= m <= s.len(),
    ensures
        dec_value(s.take(m)) <= dec_value(s),
    decreases s.len() - m,
{
    if m < s.len() {
        let p = s.take(m);
        let p2 = s.take(m + 1);
        assert(forall|i: int| 0 <= i < p.len() ==> #[trigger] p[i] == s[i]);
        assert(p2.drop_last() =~= p);
        assert(p2.last() == s[m]);
        lemma_dec_value_nonneg(p);
        assert(is_digit(s[m]));
        assert(dec_value(p2) == dec_value(p) * 10 + (s[m] as u32 - 48));
        assert(dec_value(p) * 10 >= dec_value(p));
        lemma_dec_value_take(s, m + 1);
    } else {
        assert(s.take(m) =~= s);
    }
}

fn parse_decimal(t: &str) -> (r: Option<u64>)
    ensures
        (r is Some) == (all_digits(t@) && dec_value(t@) <= u64::MAX),
        r matches Some(v) ==> v == dec_value(t@),
{
    let n = t.unicode_len();
    let mut val: u64 = 0;
    let mut j: usize = 0;
    while j < n
        invariant
            n == t@.len(),
            j <= n,
            all_digits(t@.take(j as int)),
            val == dec_value(t@.take(j as int)),
        decreases n - j,
    {
        let c = t.get_char(j);
        let u = c as u32;
        if u < 48 || u > 57 {
            proof {
                assert(!all_digits(t@)) by {
                    assert(!is_digit(t@[j as int]));
                }
            }
            return None;
        }
        let d: u64 = (u - 48) as u64;
        let ghost m = j as int;
        proof {
            assert(t@.take(m + 1).drop_last() =~= t@.take(m));
            assert(t@.take(m + 1).last() == t@[m]);
            assert(dec_value(t@.take(m + 1)) == dec_value(t@.take(m)) * 10 + (t@[m] as u32 - 48));
        }
        if val > (u64::MAX - d) / 10 {
            proof {
                assert(10 * val + d > u64::MAX) by (nonlinear_arith)
                    requires
                        val > (u64::MAX - d) / 10,
                        d <= 9,
                ;
                if all_digits(t@) {
                    lemma_dec_value_take(t@, m + 1);
                    assert(dec_value(t@) > u64::MAX);
                }
                assert(!(all_digits(t@) && dec_value(t@) <= u64::MAX));
            }
            return None;
        }
        proof {
            assert(10 * val + d <= u64::MAX) by (nonlinear_arith)
                requires
                    val <= (u64::MAX - d) / 10,
                    d <= 9,
            ;
            assert forall|i: int| 0 <= i < m + 1 implies is_digit(#[trigger] t@.take(m + 1)[i]) by {
                if i < m {
                    assert(t@.take(m)[i] == t@.take(m + 1)[i]);
                }
            }
        }
        val = val * 10 + d;
        j += 1;
    }
    proof {
        assert(t@.take(n as int) =~= t@);
    }
    Some(val)
}

/// Parse the revision number out of a chain's self-reported identifier of
/// the form `<name>-<revision-number>`: the digits after the last `-` (the
/// whole identifier if it has no `-`), rejected when empty, not purely
/// decimal, or too large for the counter.
pub fn parse_chain_revision(chain_id: &str) -> (r: Result<u64, UnionInitError>)
    ensures
        (r is Ok) == (rev_suffix(chain_id@).len() > 0 && all_digits(rev_suffix(chain_id@))
            && dec_value(rev_suffix(chain_id@)) <= u64::MAX),
        r matches Ok(v) ==> v == dec_value(rev_suffix(chain_id@)),
        r matches Err(e) ==> (e matches UnionInitError::ChainIdParse { found } && found@
            == chain_id@),
{
    let n = chain_id.unicode_len();
    proof {
        chain_id@.index_of_last_ensures('-');
    }
    let mut i: usize = 0;
    let mut dash: Option<usize> = None;
    while i < n
        invariant
            n == chain_id@.len(),
            i <= n,
            match dash {
                Some(d) => d < i && chain_id@[d as int] == '-' && (forall|j: int|
                    d < j < i ==> chain_id@[j] != '-'),
                None => forall|j: int| 0 <= j < i ==> chain_id@[j] != '-',
            },
        decreases n - i,
    {
        if chain_id.get_char(i) == '-' {
            dash = Some(i);
        }
        i += 1;
    }
    let start: usize = match dash {
        Some(d) => {
            proof {
                assert(chain_id@.contains('-')) by {
                    assert(chain_id@[d as int] == '-');
                }
                match chain_id@.index_of_last('-') {
                    Some(idx) => {
                        if idx < d {
                            assert(chain_id@[d as int] != '-');
                        }
                        if idx > d {
                            assert(chain_id@[idx] != '-');
                        }
                        assert(idx == d);
                    },
                    None => {
                        assert(false);
                    },
                }
            }
            d + 1
        },
        None => {
            proof {
                if chain_id@.contains('-') {
                    let j = choose|j: int| 0 <= j < chain_id@.len() && chain_id@[j] == '-';
                    assert(false);
                }
            }
            0
        },
    };
    let tail = chain_id.substring_char(start, n);
    proof {
        assert(tail@ =~= rev_suffix(chain_id@));
    }
    if start == n {
        return Err(UnionInitError::ChainIdParse { found: String::from_str(chain_id) });
    }
    match parse_decimal(tail) {
        Some(v) => Ok(v),
        None => Err(UnionInitError::ChainIdParse { found: String::from_str(chain_id) }),
    }
}

/// The adapter identity of one chain: its self-reported id, the revision
/// parsed out of it, and the plain configuration the adapter works from.
pub struct Union {
    pub chain_id: String,
    pub keyring: KeyringConfig,
    pub chain_revision: u64,
    pub prover_endpoints: Vec<String>,
    pub grpc_url: String,
    pub checksum_cache: ChecksumCache,
    pub gas_config: GasConfig,
}

impl Union {
    /// Build the adapter identity from its configuration and the chain id
    /// that the RPC endpoint reported, parsing the chain revision out of the
    /// id; fails exactly when the id does not end in a usable revision
    /// number. The caller performs the network round-trip that obtains the
    /// id.
    pub fn from_chain_id(config: Config, chain_id: String) -> (r: Result<Union, UnionInitError>)
        ensures
            (r is Ok) == (rev_suffix(chain_id@).len() > 0 && all_digits(rev_suffix(chain_id@))
                && dec_value(rev_suffix(chain_id@)) <= u64::MAX),
            r matches Ok(u) ==> u.chain_id@ == chain_id@ && u.chain_revision == dec_value(
                rev_suffix(chain_id@),
            ) && u.keyring == config.keyring && u.prover_endpoints == config.prover_endpoints
                && u.grpc_url == config.grpc_url && u.gas_config == config.gas_config,
            r matches Err(e) ==> (e matches UnionInitError::ChainIdParse { found } && found@
                == chain_id@),
    {
        let chain_revision = match parse_chain_revision(chain_id.as_str()) {
            Ok(v) => v,
            Err(e) => {
                return Err(e);
            },
        };
        Ok(
            Union {
                chain_id,
                keyring: config.keyring,
                chain_revision,
                prover_endpoints: config.prover_endpoints,
                grpc_url: config.grpc_url,
                checksum_cache: ChecksumCache::new(),
                gas_config: config.gas_config,
            },
        )
    }

    /// The signer rotation this adapter draws from.
    pub fn keyring(&self) -> (r: &KeyringConfig)
        ensures
            *r == self.keyring,
    {
        &self.keyring
    }

    /// Stamp a height with this chain's revision.
    pub fn make_height(&self, height: u64) -> (r: Height)
        ensures
            r == (Height { revision: self.chain_revision, height }),
    {
        Height::new_with_revision(self.chain_revision, height)
    }

    /// Look up the client type recorded under a code checksum, recording
    /// `fetched` if the hash is new: the first recording under a key wins,
    /// and later calls see it whatever they fetched.
    pub fn client_type_for(&mut self, checksum: &Vec<u8>, fetched: u64) -> (r: u64)
        ensures
            r == (if cache_contents(old(self).checksum_cache).contains_key(checksum@) {
                cache_contents(old(self).checksum_cache)[checksum@]
            } else {
                fetched
            }),
            cache_contents(final(self).checksum_cache) == (if cache_contents(
                old(self).checksum_cache,
            ).contains_key(checksum@) {
                cache_contents(old(self).checksum_cache)
            } else {
                cache_contents(old(self).checksum_cache).insert(checksum@, fetched)
            }),
            final(self).chain_id == old(self).chain_id,
            final(self).keyring == old(self).keyring,
            final(self).chain_revision == old(self).chain_revision,
            final(self).prover_endpoints == old(self).prover_endpoints,
            final(self).grpc_url == old(self).grpc_url,
            final(self).gas_config == old(self).gas_config,
    {
        self.checksum_cache.insert_if_vacant(checksum, fetched)
    }
}

} // verus!
