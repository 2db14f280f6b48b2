//! The service layer behind the subsystem's four operations: export full
//! state, export one contract's state, compute a state delta, and fetch the
//! current head. Index-sourced exports first check that the external trie
//! engine's persisted head marker matches the secondary index's head.
//!
//! The caller performs the engine reads: it asks for the expected keys, reads
//! each against the engine, and hands the values back, in order.

use vstd::prelude::*;

use crate::delta::DeltaBundle;
use crate::error::UbtError;
use crate::export::ExportBundle;
use crate::index_export::{
    export_contract_state_from_index,
    export_full_state_from_index,
    ikeys_sorted,
    ikeys_wf,
    index_bundle_matches,
    IndexKey,
};
use crate::key_index::KeyIndex;
use crate::store::UbtStore;
use crate::types::ADDRESS_LEN;

verus! {

/// Parameters of a full-state export request.
#[derive(Debug)]
pub struct ExportStateParams {
    pub output_path: String,
    pub chain_id: Option<u64>,
}

/// What a full-state or contract export request reports back.
#[derive(Debug)]
pub struct ExportStateResult {
    pub block_number: u64,
    pub block_hash: Vec<u8>,
    pub root: Vec<u8>,
    pub entry_count: u64,
    pub stem_count: u64,
    pub state_file: String,
    pub stem_index_file: String,
}

/// Parameters of a contract export request.
#[derive(Debug)]
pub struct ExportContractParams {
    pub contract: Vec<u8>,
    pub output_path: String,
    pub chain_id: Option<u64>,
}

/// Parameters of a delta request.
#[derive(Debug)]
pub struct GetStateDeltaParams {
    pub from_block: u64,
    pub to_block: u64,
    pub output_path: String,
    pub chain_id: Option<u64>,
}

/// Where the request server listens, each endpoint individually disableable.
#[derive(Debug)]
pub struct RpcServerConfig {
    pub http_addr: Option<String>,
    pub ipc_path: Option<String>,
}

/// What a head request reports back.
#[derive(Debug)]
pub struct GetRootResult {
    pub block_number: u64,
    pub block_hash: Vec<u8>,
    pub root: Vec<u8>,
    pub stem_count: u64,
}

/// The big-endian value of a byte sequence, most significant byte first.
pub open spec fn be_nat(s: Seq<u8>) -> int
    decreases s.len(),
{
    if s.len() == 0 {
        0
    } else {
        be_nat(s.drop_last()) * 256 + s.last()
    }
}

proof fn lemma_be_nat_bound(s: Seq<u8>, bound: int)
    requires
        s.len() <= 8,
        bound == 256,
    ensures
        0 <= be_nat(s) < pow256(s.len() as int),
    decreases s.len(),
{
    if s.len() > 0 {
        lemma_be_nat_bound(s.drop_last(), bound);
    }
}

/// 256 to the power `n`, for the bounds of big-endian decoding.
pub open spec fn pow256(n: int) -> int
    decreases n,
{
    if n <= 0 {
        1
    } else {
        256 * pow256(n - 1)
    }
}

/// Decode a big-endian 64-bit block number, as the engine stores its head
/// marker.
pub fn u64_from_be_bytes(s: &Vec<u8>) -> (r: u64)
    requires
        s@.len() == 8,
    ensures
        r as int == be_nat(s@),
{
    proof {
        lemma_be_nat_bound(s@, 256);
        lemma_pow256_value();
    }
    let mut acc: u64 = 0;
    let mut i: usize = 0;
    proof {
        assert(s@.take(0) =~= Seq::<u8>::empty());
    }
    while i < 8
        invariant
            s@.len() == 8,
            0 <= i <= 8,
            acc as int == be_nat(s@.take(i as int)),
            (acc as int) < pow256(i as int),
            pow256(8) == 0x1_0000_0000_0000_0000,
        decreases 8 - i,
    {
        proof {
            assert(s@.take(i + 1).drop_last() =~= s@.take(i as int));
            assert(s@.take(i + 1).last() == s@[i as int]);
            assert(pow256(i + 1) == 256 * pow256(i as int));
            assert(pow256(i + 1) <= pow256(8)) by {
                lemma_pow256_mono(i + 1, 8);
            }
        }
        acc = acc * 256 + (s[i] as u64);
        i = i + 1;
    }
    proof {
        assert(s@.take(8) =~= s@);
    }
    acc
}

proof fn lemma_pow256_mono(a: int, b: int)
    requires
        0 <= a <= b,
    ensures
        pow256(a) <= pow256(b),
    decreases b,
{
    if a < b {
        lemma_pow256_mono(a, b - 1);
        assert(pow256(b) == 256 * pow256(b - 1));
        assert(pow256(b - 1) >= 1) by {
            lemma_pow256_pos(b - 1);
        }
    }
}

proof fn lemma_pow256_value()
    ensures
        pow256(8) == 0x1_0000_0000_0000_0000,
{
    assert(pow256(0) == 1);
    assert(pow256(1) == 256);
    assert(pow256(2) == 0x1_0000);
    assert(pow256(3) == 0x100_0000);
    assert(pow256(4) == 0x1_0000_0000);
    assert(pow256(5) == 0x100_0000_0000);
    assert(pow256(6) == 0x1_0000_0000_0000);
    assert(pow256(7) == 0x100_0000_0000_0000);
    assert(pow256(8) == 0x1_0000_0000_0000_0000);
}

proof fn lemma_pow256_pos(n: int)
    ensures
        pow256(n) >= 1,
    decreases n,
{
    if n > 0 {
        lemma_pow256_pos(n - 1);
    }
}

/// The head block the engine's marker value denotes: absent or unreadable
/// markers count as block zero; a marker of the wrong width is invalid.
pub open spec fn engine_head_of(v: Option<Vec<u8>>) -> Option<int> {
    match v {
        Some(b) => if b@.len() == 8 {
            Some(be_nat(b@))
        } else {
            None
        },
        None => Some(0),
    }
}

/// The service state: the primary store, the secondary index, and the
/// configured defaults.
#[derive(Debug)]
pub struct UbtRpc {
    pub store: UbtStore,
    pub key_index: KeyIndex,
    pub default_chain_id: u64,
    pub delta_retention: u64,
}

impl UbtRpc {
    pub open spec fn wf(self) -> bool {
        &&& self.store.wf()
        &&& self.key_index.wf()
    }

    pub fn new(store: UbtStore, key_index: KeyIndex, default_chain_id: u64, delta_retention: u64) -> (r: UbtRpc)
        requires
            store.wf(),
            key_index.wf(),
        ensures
            r.wf(),
            r.store == store,
            r.key_index == key_index,
            r.default_chain_id == default_chain_id,
            r.delta_retention == delta_retention,
    {
        UbtRpc { store, key_index, default_chain_id, delta_retention }
    }

    /// The chain id a request resolves to.
    pub open spec fn spec_chain_id(self, chain_id: Option<u64>) -> u64 {
        match chain_id {
            Some(c) => c,
            None => self.default_chain_id,
        }
    }

    fn resolve_chain_id(&self, chain_id: &Option<u64>) -> (r: u64)
        ensures
            r == self.spec_chain_id(*chain_id),
    {
        match chain_id {
            Some(c) => *c,
            None => self.default_chain_id,
        }
    }

    /// Check that the engine's persisted head marker matches the index's
    /// recorded head block; an index-sourced export must not run otherwise.
    /// `engine_head_value` is what the caller read under the engine's
    /// reserved head key, if anything.
    pub fn ensure_heads_synced(&self, engine_head_value: &Option<Vec<u8>>) -> (r: Result<
        (),
        UbtError,
    >)
        requires
            self.wf(),
        ensures
            match r {
                Ok(()) => {
                    &&& engine_head_of(*engine_head_value) matches Some(e)
                    &&& self.key_index.head matches Some(h) && Some(h.block_number as int)
                        == engine_head_of(*engine_head_value)
                },
                Err(e) => match e {
                    UbtError::InvalidEngineHead => engine_head_of(*engine_head_value) is None,
                    UbtError::MissingIndexHead => {
                        &&& engine_head_of(*engine_head_value) is Some
                        &&& self.key_index.head is None
                    },
                    UbtError::HeadMismatch { engine_head, index_head } => {
                        &&& engine_head_of(*engine_head_value) == Some(engine_head as int)
                        &&& self.key_index.head matches Some(h) && h.block_number == index_head
                        &&& engine_head != index_head
                    },
                    _ => false,
                },
            },
    {
        let engine_head: u64 = match engine_head_value {
            Some(b) => {
                if b.len() != 8 {
                    return Err(UbtError::InvalidEngineHead);
                }
                u64_from_be_bytes(b)
            },
            None => 0,
        };
        let index_head = match self.key_index.load_head() {
            Some(h) => h.block_number,
            None => {
                return Err(UbtError::MissingIndexHead);
            },
        };
        if engine_head != index_head {
            return Err(UbtError::HeadMismatch { engine_head, index_head });
        }
        Ok(())
    }

    /// Serve a full-state export: check the heads are synced, then lay out
    /// the snapshot from the expected keys and the caller's engine reads.
    pub fn export_state(
        &self,
        params: &ExportStateParams,
        engine_head_value: &Option<Vec<u8>>,
        keys: &Vec<IndexKey>,
        values: &Vec<Option<Vec<u8>>>,
    ) -> (r: Result<ExportBundle, UbtError>)
        requires
            self.wf(),
            ikeys_sorted(keys@),
            ikeys_wf(keys@),
            values@.len() == keys@.len(),
        ensures
            match r {
                Ok(b) => {
                    &&& self.key_index.head matches Some(h) && Some(h.block_number as int)
                        == engine_head_of(*engine_head_value) && b.result.block_number
                        == h.block_number && b.result.block_hash@ == h.block_hash@
                        && b.result.root@ == h.root@ && (keys@.len() > 0 || h.stem_count == 0)
                    &&& b.result.state_file@ == "state.bin"@
                    &&& b.result.stem_index_file@ == "stem-index.bin"@
                    &&& index_bundle_matches(
                        b,
                        keys@,
                        values@,
                        self.spec_chain_id(params.chain_id),
                    )
                },
                Err(e) => match e {
                    UbtError::InvalidEngineHead => engine_head_of(*engine_head_value) is None,
                    UbtError::MissingIndexHead => self.key_index.head is None,
                    UbtError::HeadMismatch { engine_head, index_head } => {
                        &&& engine_head_of(*engine_head_value) == Some(engine_head as int)
                        &&& self.key_index.head matches Some(h) && h.block_number == index_head
                        &&& engine_head != index_head
                    },
                    UbtError::InvalidValueLength => exists|p: int|
                        0 <= p < values@.len() && ((#[trigger] values@[p]) matches Some(v)
                            && v@.len() != crate::types::VALUE_LEN),
                    UbtError::EmptyIndexWithStems => {
                        &&& keys@.len() == 0
                        &&& self.key_index.head matches Some(h) && h.stem_count > 0
                    },
                    _ => false,
                },
            },
    {
        match self.ensure_heads_synced(engine_head_value) {
            Ok(()) => (),
            Err(e) => {
                return Err(e);
            },
        }
        let head = match self.key_index.load_head() {
            Some(h) => h,
            None => {
                proof {
                    // the sync check already found a head
                    assert(false);
                }
                return Err(UbtError::MissingIndexHead);
            },
        };
        let chain_id = self.resolve_chain_id(&params.chain_id);
        export_full_state_from_index(&head, chain_id, keys, values)
    }

    /// Serve a contract export: check the heads are synced, then lay out the
    /// contract's snapshot from its expected keys and the caller's engine
    /// reads.
    pub fn export_contract(
        &self,
        params: &ExportContractParams,
        engine_head_value: &Option<Vec<u8>>,
        keys: &Vec<IndexKey>,
        values: &Vec<Option<Vec<u8>>>,
    ) -> (r: Result<ExportBundle, UbtError>)
        requires
            self.wf(),
            params.contract@.len() == ADDRESS_LEN,
            ikeys_sorted(keys@),
            ikeys_wf(keys@),
            values@.len() == keys@.len(),
        ensures
            match r {
                Ok(b) => {
                    &&& self.key_index.head matches Some(h) && Some(h.block_number as int)
                        == engine_head_of(*engine_head_value) && b.result.block_number
                        == h.block_number && b.result.block_hash@ == h.block_hash@
                        && b.result.root@ == h.root@
                    &&& b.result.state_file@ == "contract-"@
                        + crate::names::checksum_display_of(params.contract@) + ".bin"@
                    &&& b.result.stem_index_file@ == "contract-"@
                        + crate::names::checksum_display_of(params.contract@) + "-stem-index.bin"@
                    &&& index_bundle_matches(
                        b,
                        keys@,
                        values@,
                        self.spec_chain_id(params.chain_id),
                    )
                },
                Err(e) => match e {
                    UbtError::InvalidEngineHead => engine_head_of(*engine_head_value) is None,
                    UbtError::MissingIndexHead => self.key_index.head is None,
                    UbtError::HeadMismatch { engine_head, index_head } => {
                        &&& engine_head_of(*engine_head_value) == Some(engine_head as int)
                        &&& self.key_index.head matches Some(h) && h.block_number == index_head
                        &&& engine_head != index_head
                    },
                    UbtError::InvalidValueLength => exists|p: int|
                        0 <= p < values@.len() && ((#[trigger] values@[p]) matches Some(v)
                            && v@.len() != crate::types::VALUE_LEN),
                    _ => false,
                },
            },
    {
        match self.ensure_heads_synced(engine_head_value) {
            Ok(()) => (),
            Err(e) => {
                return Err(e);
            },
        }
        let head = match self.key_index.load_head() {
            Some(h) => h,
            None => {
                proof {
                    // the sync check already found a head
                    assert(false);
                }
                return Err(UbtError::MissingIndexHead);
            },
        };
        let chain_id = self.resolve_chain_id(&params.chain_id);
        export_contract_state_from_index(&head, &params.contract, chain_id, keys, values)
    }

    /// Serve a delta request: check the heads are synced, then compute the
    /// delta export from the primary store.
    pub fn get_state_delta(
        &self,
        params: &GetStateDeltaParams,
        engine_head_value: &Option<Vec<u8>>,
    ) -> (r: Result<DeltaBundle, UbtError>)
        requires
            self.wf(),
        ensures
            match r {
                Ok(b) => {
                    &&& self.key_index.head matches Some(h) && Some(h.block_number as int)
                        == engine_head_of(*engine_head_value)
                    &&& self.store.head matches Some(sh) && {
                        &&& params.from_block <= params.to_block <= sh.block_number
                        &&& params.from_block >= crate::delta::spec_min_block(
                            sh.block_number,
                            self.delta_retention,
                        )
                        &&& b.result.from_block == params.from_block
                        &&& b.result.to_block == params.to_block
                        &&& b.result.head_block == sh.block_number
                        &&& b.result.delta_file@ == "delta-"@ + crate::names::spec_decimal(
                            params.from_block as nat,
                        ) + "-"@ + crate::names::spec_decimal(params.to_block as nat) + ".bin"@
                        &&& exists|keys: Seq<(crate::types::Stem, u8)>, entries: Seq<
                            crate::codec::StorageEntry,
                        >|
                            {
                                &&& #[trigger] crate::delta::delta_entries_match(
                                    self.store,
                                    params.from_block,
                                    params.to_block,
                                    keys,
                                    entries,
                                )
                                &&& b.result.entry_count == entries.len()
                                &&& b.delta_bytes@ == crate::export::spec_header_bytes(
                                    b.result.entry_count,
                                    sh.block_number,
                                    self.spec_chain_id(params.chain_id),
                                    sh.block_hash@,
                                ) + crate::export::entries_bytes(entries, entries.len() as int)
                                &&& b.delta_bytes@.len() == crate::codec::STATE_HEADER_SIZE
                                    + crate::codec::STATE_ENTRY_SIZE * entries.len()
                            }
                    }
                },
                Err(e) => match e {
                    UbtError::InvalidEngineHead => engine_head_of(*engine_head_value) is None,
                    UbtError::MissingIndexHead => self.key_index.head is None,
                    UbtError::HeadMismatch { engine_head, index_head } => {
                        &&& engine_head_of(*engine_head_value) == Some(engine_head as int)
                        &&& self.key_index.head matches Some(h) && h.block_number == index_head
                        &&& engine_head != index_head
                    },
                    UbtError::NoCanonicalState => self.store.head is None,
                    UbtError::InvalidRange { from_block, to_block } => {
                        &&& from_block == params.from_block && to_block == params.to_block
                        &&& params.from_block > params.to_block
                    },
                    UbtError::RangeAheadOfHead { to_block, head } => self.store.head
                        matches Some(sh) && {
                        &&& params.from_block <= params.to_block
                        &&& params.to_block > sh.block_number
                        &&& to_block == params.to_block && head == sh.block_number
                    },
                    UbtError::RangeBeforeRetention { from_block, min_block } => self.store.head
                        matches Some(sh) && {
                        &&& params.from_block <= params.to_block <= sh.block_number
                        &&& params.from_block < crate::delta::spec_min_block(
                            sh.block_number,
                            self.delta_retention,
                        )
                        &&& from_block == params.from_block && min_block
                            == crate::delta::spec_min_block(sh.block_number, self.delta_retention)
                    },
                    UbtError::MissingAddresses { count } => self.store.head matches Some(sh)
                        && {
                        &&& params.from_block <= params.to_block <= sh.block_number
                        &&& params.from_block >= crate::delta::spec_min_block(
                            sh.block_number,
                            self.delta_retention,
                        )
                        &&& count > 0
                        &&& exists|keys: Seq<(crate::types::Stem, u8)>|
                            #![trigger crate::delta::touched_keys_match(self.store, params.from_block, params.to_block, keys)]
                            crate::delta::touched_keys_match(
                                self.store,
                                params.from_block,
                                params.to_block,
                                keys,
                            ) && count as int == crate::delta::missing_key_count(
                                self.store,
                                keys,
                                keys.len() as int,
                            )
                        &&& exists|k: Seq<u8>, s: u8|
                            #![trigger crate::delta::touched_range(self.store, params.from_block as int, params.to_block as int, k, s)]
                            crate::delta::touched_range(
                                self.store,
                                params.from_block as int,
                                params.to_block as int,
                                k,
                                s,
                            ) && self.store.address_of(k) is None
                    },
                    _ => false,
                },
            },
    {
        match self.ensure_heads_synced(engine_head_value) {
            Ok(()) => (),
            Err(e) => {
                return Err(e);
            },
        }
        let chain_id = self.resolve_chain_id(&params.chain_id);
        crate::delta::get_state_delta(
            &self.store,
            params.from_block,
            params.to_block,
            chain_id,
            self.delta_retention,
        )
    }

    /// Serve a head request from the secondary index's head record.
    pub fn get_root(&self) -> (r: Result<GetRootResult, UbtError>)
        requires
            self.wf(),
        ensures
            match r {
                Ok(g) => self.key_index.head matches Some(h) && {
                    &&& g.block_number == h.block_number
                    &&& g.block_hash@ == h.block_hash@
                    &&& g.root@ == h.root@
                    &&& g.stem_count == h.stem_count
                },
                Err(e) => e == UbtError::NoCanonicalState && self.key_index.head is None,
            },
    {
        match self.key_index.load_head() {
            Some(h) => Ok(
                GetRootResult {
                    block_number: h.block_number,
                    block_hash: h.block_hash,
                    root: h.root,
                    stem_count: h.stem_count,
                },
            ),
            None => Err(UbtError::NoCanonicalState),
        }
    }
}

} // verus!
