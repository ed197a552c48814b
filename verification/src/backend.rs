//! The sharded key-value backend: a fixed set of independent stores, a pure
//! routing function from key to shard, and the dispatch that turns a decoded
//! command into a reply frame. `SET` overwrites unconditionally and replies
//! `OK`; `GET` replies the value or null; the publish/subscribe and
//! configuration commands decode but are answered `unimplemented`.
use crate::command::{Command, CommandModel};
use crate::frame::{Frame, FrameModel, FrameSimple, SimpleModel};
use vstd::prelude::*;

verus! {

/// How many independent stores the key space is split over.
pub const NUM_SHARDS: u64 = 128;

/// The FNV-1a offset basis.
pub const FNV_OFFSET: u64 = 0xcbf29ce484222325;

/// The FNV-1a prime.
pub const FNV_PRIME: u64 = 0x100000001b3;

/// One step of FNV-1a: fold a byte into the running hash.
pub open spec fn fnv1a_step(h: u64, b: u8) -> u64 {
    vstd::wrapping::u64_specs::wrapping_mul(h ^ (b as u64), FNV_PRIME)
}

/// The FNV-1a hash of a byte string.
pub open spec fn fnv1a(s: Seq<u8>) -> u64
    decreases s.len(),
{
    if s.len() == 0 {
        FNV_OFFSET
    } else {
        fnv1a_step(fnv1a(s.drop_last()), s.last())
    }
}

/// The shard a key lives on: a pure function of the key bytes alone.
pub open spec fn spec_shard_index(key: Seq<u8>) -> int {
    fnv1a(key) as int % (NUM_SHARDS as int)
}

/// Routing determinism: the shard index depends on the key bytes and on
/// nothing else, so repeated calls and different command kinds for the same
/// key always select the same shard.
pub proof fn lemma_routing_deterministic(k1: Seq<u8>, k2: Seq<u8>)
    requires
        k1 == k2,
    ensures
        spec_shard_index(k1) == spec_shard_index(k2),
        0 <= spec_shard_index(k1) < NUM_SHARDS,
{
}

fn clone_bytes(v: &Vec<u8>) -> (r: Vec<u8>)
    ensures
        r@ == v@,
{
    let mut out: Vec<u8> = Vec::new();
    let mut i: usize = 0;
    while i < v.len()
        invariant
            0 <= i <= v@.len(),
            out@ == v@.take(i as int),
        decreases v@.len() - i,
    {
        out.push(v[i]);
        proof {
            assert(out@ =~= v@.take(i + 1));
        }
        i = i + 1;
    }
    proof {
        assert(v@.take(v@.len() as int) =~= v@);
    }
    out
}

/// The mapping an entry list denotes; a later entry for a key overrides an
/// earlier one.
pub open spec fn as_map(entries: Seq<(Vec<u8>, Vec<u8>)>) -> Map<Seq<u8>, Seq<u8>>
    decreases entries.len(),
{
    if entries.len() == 0 {
        Map::empty()
    } else {
        as_map(entries.drop_last()).insert(entries.last().0@, entries.last().1@)
    }
}

/// One shard's private store: a mapping from key bytes to value bytes with no
/// owner but this shard.
pub struct KVStore {
    entries: Vec<(Vec<u8>, Vec<u8>)>,
}

impl View for KVStore {
    type V = Map<Seq<u8>, Seq<u8>>;

    closed spec fn view(&self) -> Map<Seq<u8>, Seq<u8>> {
        as_map(self.entries@)
    }
}

impl KVStore {
    pub fn new() -> (r: KVStore)
        ensures
            r@ == Map::<Seq<u8>, Seq<u8>>::empty(),
    {
        KVStore { entries: Vec::new() }
    }

    /// Stores `value` under `key`, overwriting unconditionally.
    pub fn set(&mut self, key: Vec<u8>, value: Vec<u8>)
        ensures
            final(self)@ == old(self)@.insert(key@, value@),
    {
        self.entries.push((key, value));
        proof {
            assert(self.entries@.drop_last() =~= old(self).entries@);
        }
    }

    /// The current value under `key`, if any.
    pub fn get(&self, key: &Vec<u8>) -> (r: Option<Vec<u8>>)
        ensures
            match r {
                Some(v) => self@.contains_key(key@) && v@ == self@[key@],
                None => !self@.contains_key(key@),
            },
    {
        proof {
            assert(self.entries@.take(self.entries@.len() as int) =~= self.entries@);
        }
        let mut i: usize = self.entries.len();
        while i > 0
            invariant
                0 <= i <= self.entries@.len(),
                self@.contains_key(key@) == as_map(self.entries@.take(i as int)).contains_key(
                    key@,
                ),
                self@.contains_key(key@) ==> self@[key@] == as_map(
                    self.entries@.take(i as int),
                )[key@],
            decreases i,
        {
            let pair = &self.entries[i - 1];
            proof {
                assert(self.entries@.take(i as int).drop_last() =~= self.entries@.take(i - 1));
                assert(self.entries@.take(i as int).last() == self.entries@[i - 1]);
            }
            if pair.0 == *key {
                proof {
                    assert(pair.0@ == key@);
                    assert(as_map(self.entries@.take(i as int)) == as_map(
                        self.entries@.take(i - 1),
                    ).insert(pair.0@, pair.1@));
                    assert(as_map(self.entries@.take(i as int)).contains_key(key@));
                    assert(as_map(self.entries@.take(i as int))[key@] == pair.1@);
                }
                return Some(clone_bytes(&pair.1));
            }
            proof {
                assert(as_map(self.entries@.take(i as int)) == as_map(
                    self.entries@.take(i - 1),
                ).insert(pair.0@, pair.1@));
            }
            i = i - 1;
        }
        proof {
            assert(self.entries@.take(0) =~= Seq::<(Vec<u8>, Vec<u8>)>::empty());
        }
        None
    }
}

/// The reply bytes `PONG`.
pub open spec fn pong_bytes() -> Seq<u8> {
    seq![80u8, 79u8, 78u8, 71u8]
}

/// The reply bytes `OK`.
pub open spec fn ok_bytes() -> Seq<u8> {
    seq![79u8, 75u8]
}

/// The reply bytes `unimplemented`.
pub open spec fn unimplemented_bytes() -> Seq<u8> {
    seq![117u8, 110u8, 105u8, 109u8, 112u8, 108u8, 101u8, 109u8, 101u8, 110u8, 116u8, 101u8, 100u8]
}

/// The reply to an unrecognized command: `unimplemented`, a space, and the
/// command's (lower-cased) name.
pub open spec fn unknown_reply_bytes(name: Seq<u8>) -> Seq<u8> {
    unimplemented_bytes() + seq![32u8] + name
}

/// The reply bytes `parse error`.
pub open spec fn parse_error_bytes() -> Seq<u8> {
    seq![112u8, 97u8, 114u8, 115u8, 101u8, 32u8, 101u8, 114u8, 114u8, 111u8, 114u8]
}

/// The state of every shard, and one command's effect on it.
pub struct BackendStep {
    pub shards: Seq<Map<Seq<u8>, Seq<u8>>>,
    pub reply: FrameModel,
}

/// What one command does to the sharded state and what it replies: `PING`
/// answers directly, `SET` and `GET` touch exactly the shard their key hashes
/// to, and everything else is answered `unimplemented` without reaching a
/// shard.
pub open spec fn backend_step(shards: Seq<Map<Seq<u8>, Seq<u8>>>, cmd: CommandModel) -> BackendStep {
    match cmd {
        CommandModel::Ping { msg } => BackendStep {
            shards,
            reply: match msg {
                None => FrameModel::Simple(SimpleModel::Simple(pong_bytes())),
                Some(m) => FrameModel::Array(
                    seq![SimpleModel::Simple(pong_bytes()), SimpleModel::Bulk(m)],
                ),
            },
        },
        CommandModel::SetCmd { key, value, expire } => {
            let i = spec_shard_index(key);
            BackendStep {
                shards: shards.update(i, shards[i].insert(key, value)),
                reply: FrameModel::Simple(SimpleModel::Simple(ok_bytes())),
            }
        },
        CommandModel::Get { key } => {
            let i = spec_shard_index(key);
            BackendStep {
                shards,
                reply: if shards[i].contains_key(key) {
                    FrameModel::Simple(SimpleModel::Bulk(shards[i][key]))
                } else {
                    FrameModel::Simple(SimpleModel::Null)
                },
            }
        },
        CommandModel::Unknown { name } => BackendStep {
            shards,
            reply: FrameModel::Simple(SimpleModel::Error(unknown_reply_bytes(name))),
        },
        _ => BackendStep {
            shards,
            reply: FrameModel::Simple(SimpleModel::Error(unimplemented_bytes())),
        },
    }
}

/// The fixed set of shards and their routing.
pub struct Backend {
    kvs: Vec<KVStore>,
}

impl Backend {
    /// The mapping each shard currently holds.
    pub closed spec fn shards(&self) -> Seq<Map<Seq<u8>, Seq<u8>>> {
        self.kvs@.map_values(|s: KVStore| s@)
    }

    /// The full set of shards exists.
    pub open spec fn wf(&self) -> bool {
        self.shards().len() == NUM_SHARDS
    }

    pub fn new() -> (r: Backend)
        ensures
            r.wf(),
            forall|i: int|
                0 <= i < NUM_SHARDS ==> r.shards()[i] == Map::<Seq<u8>, Seq<u8>>::empty(),
    {
        let mut kvs: Vec<KVStore> = Vec::new();
        let mut i: usize = 0;
        while i < 128
            invariant
                0 <= i <= 128,
                kvs@.len() == i,
                forall|j: int|
                    0 <= j < i ==> (#[trigger] kvs@[j])@ == Map::<Seq<u8>, Seq<u8>>::empty(),
            decreases 128 - i,
        {
            kvs.push(KVStore::new());
            i = i + 1;
        }
        Backend { kvs }
    }

    /// The shard a key belongs to.
    pub(crate) fn select_kvs(key: &Vec<u8>) -> (r: usize)
        ensures
            r == spec_shard_index(key@),
            r < NUM_SHARDS,
    {
        let mut h: u64 = FNV_OFFSET;
        let mut i: usize = 0;
        while i < key.len()
            invariant
                0 <= i <= key@.len(),
                h == fnv1a(key@.take(i as int)),
            decreases key@.len() - i,
        {
            let x = h ^ (key[i] as u64);
            h = x.wrapping_mul(FNV_PRIME);
            proof {
                assert(key@.take(i + 1).drop_last() =~= key@.take(i as int));
                assert(key@.take(i + 1).last() == key@[i as int]);
            }
            i = i + 1;
        }
        proof {
            assert(key@.take(key@.len() as int) =~= key@);
        }
        (h % 128) as usize
    }

    /// Routes one command: `SET` and `GET` go to exactly the shard their key
    /// hashes to; `PING` is answered directly; the rest answer
    /// `unimplemented`.
    pub fn process(&mut self, cmd: Command) -> (r: Frame)
        requires
            old(self).wf(),
        ensures
            final(self).wf(),
            final(self).shards() == backend_step(old(self).shards(), cmd@).shards,
            r@ == backend_step(old(self).shards(), cmd@).reply,
    {
        match cmd {
            Command::Ping(c) => {
                match c.msg {
                    None => {
                        let pong: Vec<u8> = vec![80u8, 79u8, 78u8, 71u8];
                        proof {
                            assert(pong@ =~= pong_bytes());
                        }
                        Frame::Simple(FrameSimple::Simple(pong))
                    },
                    Some(value) => {
                        let pong: Vec<u8> = vec![80u8, 79u8, 78u8, 71u8];
                        let ghost value_model = value@;
                        let mut elts: Vec<FrameSimple> = Vec::new();
                        elts.push(FrameSimple::Simple(pong));
                        elts.push(FrameSimple::Bulk(value));
                        proof {
                            assert(crate::frame::models_of(elts@) =~= seq![
                                SimpleModel::Simple(pong_bytes()),
                                SimpleModel::Bulk(value_model),
                            ]);
                        }
                        Frame::Array(elts)
                    },
                }
            },
            Command::SetCmd(c) => {
                let idx = Self::select_kvs(&c.key);
                let ghost key_model = c.key@;
                let ghost value_model = c.value@;
                self.kvs[idx].set(c.key, c.value);
                proof {
                    assert(self.shards() =~= old(self).shards().update(
                        idx as int,
                        old(self).shards()[idx as int].insert(key_model, value_model),
                    ));
                }
                let ok: Vec<u8> = vec![79u8, 75u8];
                proof {
                    assert(ok@ =~= ok_bytes());
                }
                Frame::Simple(FrameSimple::Simple(ok))
            },
            Command::Get(c) => {
                let idx = Self::select_kvs(&c.key);
                let value = self.kvs[idx].get(&c.key);
                proof {
                    assert(old(self).shards()[idx as int] == old(self).kvs@[idx as int]@);
                }
                match value {
                    Some(v) => Frame::Simple(FrameSimple::Bulk(v)),
                    None => Frame::Simple(FrameSimple::Null),
                }
            },
            Command::Unknown(c) => {
                let mut msg: Vec<u8> = vec![
                    117u8,
                    110u8,
                    105u8,
                    109u8,
                    112u8,
                    108u8,
                    101u8,
                    109u8,
                    101u8,
                    110u8,
                    116u8,
                    101u8,
                    100u8,
                    32u8,
                ];
                proof {
                    assert(msg@ =~= unimplemented_bytes() + seq![32u8]);
                }
                let ghost header = msg@;
                let mut i: usize = 0;
                while i < c.command_name.len()
                    invariant
                        0 <= i <= c.command_name@.len(),
                        msg@ == header + c.command_name@.take(i as int),
                    decreases c.command_name@.len() - i,
                {
                    msg.push(c.command_name[i]);
                    proof {
                        assert(msg@ =~= header + c.command_name@.take(i + 1));
                    }
                    i = i + 1;
                }
                proof {
                    assert(c.command_name@.take(c.command_name@.len() as int)
                        =~= c.command_name@);
                    assert(msg@ =~= unknown_reply_bytes(c.command_name@));
                }
                Frame::Simple(FrameSimple::Error(msg))
            },
            _ => {
                let msg: Vec<u8> = vec![
                    117u8,
                    110u8,
                    105u8,
                    109u8,
                    112u8,
                    108u8,
                    101u8,
                    109u8,
                    101u8,
                    110u8,
                    116u8,
                    101u8,
                    100u8,
                ];
                proof {
                    assert(msg@ =~= unimplemented_bytes());
                }
                Frame::Simple(FrameSimple::Error(msg))
            },
        }
    }
}

/// Read-your-writes: after `SET key value`, with no intervening write to that
/// key, `GET key` on the same backend replies exactly that value, because the
/// key routes to the same shard both times and the shard serves its commands
/// in order.
pub proof fn lemma_read_your_writes(
    shards: Seq<Map<Seq<u8>, Seq<u8>>>,
    key: Seq<u8>,
    value: Seq<u8>,
    expire: Option<crate::command::Expiration>,
)
    requires
        shards.len() == NUM_SHARDS,
    ensures
        ({
            let after_set = backend_step(shards, CommandModel::SetCmd { key, value, expire });
            let get = backend_step(after_set.shards, CommandModel::Get { key });
            &&& after_set.shards.len() == NUM_SHARDS
            &&& get.reply == FrameModel::Simple(SimpleModel::Bulk(value))
            &&& get.shards == after_set.shards
        }),
{
    let i = spec_shard_index(key);
    let after_set = backend_step(shards, CommandModel::SetCmd { key, value, expire });
    assert(after_set.shards[i] == shards[i].insert(key, value));
    assert(after_set.shards[i].contains_key(key));
    assert(after_set.shards[i][key] == value);
}

} // verus!
