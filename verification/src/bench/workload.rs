//! Workload definition: what operations to issue, against which keys.
//!
//! A [`Workload`] is a *deterministic* generator parameterised by an op-mix and
//! a [`Keyspace`]: what is drawn at random comes in from outside, so two runs of
//! the same plan produce byte-identical op streams across targets.
use vstd::prelude::*;
use vstd::utf8::encode_utf8;

use crate::bench::error::BenchError;
use crate::bench::keyspace::{key_text, Keyspace};
use crate::bytes;
use crate::bytes::has_prefix;
use crate::decimal;

verus! {

/// An operation. `MGet` and `MSet` are batches: one round-trip for several keys.
#[derive(Debug)]
pub enum Op {
    Get { key: Vec<u8> },
    SetKey { key: Vec<u8>, value: Vec<u8> },
    Del { key: Vec<u8> },
    MGet { keys: Vec<Vec<u8>> },
    MSet { keys: Vec<Vec<u8>>, value: Vec<u8> },
}

/// Compact, indexable op classification used by the metrics layer.
#[derive(Debug, Clone, Copy, PartialEq, Eq, Structural)]
pub enum OpKind {
    Get,
    SetKey,
    Del,
    MGet,
    MSet,
}

/// How many kinds there are.
pub const KIND_COUNT: usize = 5;

impl OpKind {
    /// All kinds, in the order of their places.
    pub fn all() -> (r: [OpKind; 5])
        ensures
            r@ == seq![OpKind::Get, OpKind::SetKey, OpKind::Del, OpKind::MGet, OpKind::MSet],
            forall|i: int| 0 <= i < 5 ==> (#[trigger] r@[i]).place() == i,
    {
        let r = [OpKind::Get, OpKind::SetKey, OpKind::Del, OpKind::MGet, OpKind::MSet];
        assert(r@ =~= seq![OpKind::Get, OpKind::SetKey, OpKind::Del, OpKind::MGet, OpKind::MSet]);
        r
    }

    pub fn name(self) -> (r: &'static str)
        ensures
            r@ == (match self {
                OpKind::Get => "GET"@,
                OpKind::SetKey => "SET"@,
                OpKind::Del => "DEL"@,
                OpKind::MGet => "MGET"@,
                OpKind::MSet => "MSET"@,
            }),
    {
        match self {
            OpKind::Get => "GET",
            OpKind::SetKey => "SET",
            OpKind::Del => "DEL",
            OpKind::MGet => "MGET",
            OpKind::MSet => "MSET",
        }
    }

    /// The place of this kind among the per-kind statistics.
    pub open spec fn place(self) -> int {
        match self {
            OpKind::Get => 0,
            OpKind::SetKey => 1,
            OpKind::Del => 2,
            OpKind::MGet => 3,
            OpKind::MSet => 4,
        }
    }

    /// The place of this kind among the per-kind statistics.
    pub fn index(self) -> (i: usize)
        ensures
            i == self.place(),
            i < KIND_COUNT,
    {
        match self {
            OpKind::Get => 0,
            OpKind::SetKey => 1,
            OpKind::Del => 2,
            OpKind::MGet => 3,
            OpKind::MSet => 4,
        }
    }
}

/// What an `Op` says.
#[verifier::ext_equal]
pub enum OpView {
    Get { key: Seq<u8> },
    SetKey { key: Seq<u8>, value: Seq<u8> },
    Del { key: Seq<u8> },
    MGet { keys: Seq<Seq<u8>> },
    MSet { keys: Seq<Seq<u8>>, value: Seq<u8> },
}

/// The bytes of each of several keys.
pub open spec fn keys_view(v: Seq<Vec<u8>>) -> Seq<Seq<u8>> {
    v.map_values(|k: Vec<u8>| k@)
}

impl View for Op {
    type V = OpView;

    open spec fn view(&self) -> OpView {
        match *self {
            Op::Get { key } => OpView::Get { key: key@ },
            Op::SetKey { key, value } => OpView::SetKey { key: key@, value: value@ },
            Op::Del { key } => OpView::Del { key: key@ },
            Op::MGet { keys } => OpView::MGet { keys: keys_view(keys@) },
            Op::MSet { keys, value } => OpView::MSet { keys: keys_view(keys@), value: value@ },
        }
    }
}

impl Op {
    pub fn kind(&self) -> (r: OpKind)
        ensures
            r == (match *self {
                Op::Get { .. } => OpKind::Get,
                Op::SetKey { .. } => OpKind::SetKey,
                Op::Del { .. } => OpKind::Del,
                Op::MGet { .. } => OpKind::MGet,
                Op::MSet { .. } => OpKind::MSet,
            }),
    {
        match self {
            Op::Get { .. } => OpKind::Get,
            Op::SetKey { .. } => OpKind::SetKey,
            Op::Del { .. } => OpKind::Del,
            Op::MGet { .. } => OpKind::MGet,
            Op::MSet { .. } => OpKind::MSet,
        }
    }

    /// How many keys the operation serves.
    pub fn keys(&self) -> (n: u64)
        ensures
            n == (match *self {
                Op::MGet { keys } => keys@.len(),
                Op::MSet { keys, .. } => keys@.len(),
                _ => 1,
            }),
    {
        match self {
            Op::MGet { keys } => keys.len() as u64,
            Op::MSet { keys, .. } => keys.len() as u64,
            _ => 1,
        }
    }
}

/// Which operations a workload issues.
#[derive(Debug, Clone, Copy, PartialEq, Eq, Structural)]
pub enum OpMix {
    GetOnly,
    SetOnly,
    /// Mix of GET/SET. `read_pct` is in `[0, 100]`.
    Mixed { read_pct: u8 },
}

/// The op mix that a text stands for.
pub open spec fn mix_of(s: Seq<u8>) -> Result<OpMix, BenchError> {
    if s == encode_utf8("get"@) || s == encode_utf8("get-only"@) {
        Ok(OpMix::GetOnly)
    } else if s == encode_utf8("set"@) || s == encode_utf8("set-only"@) {
        Ok(OpMix::SetOnly)
    } else if has_prefix(s, encode_utf8("mixed:"@)) {
        match decimal::decimal_u64(s.skip(encode_utf8("mixed:"@).len() as int)) {
            None => Err(BenchError::BadPercentage),
            Some(n) => if n > 255 {
                Err(BenchError::BadPercentage)
            } else if n > 100 {
                Err(BenchError::PercentageTooHigh)
            } else {
                Ok(OpMix::Mixed { read_pct: n as u8 })
            },
        }
    } else {
        Err(BenchError::UnknownMix)
    }
}

impl OpMix {
    /// Reads `get`, `get-only`, `set`, `set-only` or `mixed:` and a percentage.
    pub fn parse(s: &str) -> (r: Result<OpMix, BenchError>)
        ensures
            r == mix_of(encode_utf8(s@)),
    {
        let b = s.as_bytes();
        if bytes::same(b, "get".as_bytes()) || bytes::same(b, "get-only".as_bytes()) {
            return Ok(OpMix::GetOnly);
        }
        if bytes::same(b, "set".as_bytes()) || bytes::same(b, "set-only".as_bytes()) {
            return Ok(OpMix::SetOnly);
        }
        let prefix = "mixed:".as_bytes();
        if !bytes::starts_with(b, prefix) {
            return Err(BenchError::UnknownMix);
        }
        let rest = vstd::slice::slice_subrange(b, prefix.len(), b.len());
        assert(rest@ =~= b@.skip(prefix@.len() as int));
        match decimal::read_u64(rest) {
            None => Err(BenchError::BadPercentage),
            Some(n) => if n > 255 {
                Err(BenchError::BadPercentage)
            } else if n > 100 {
                Err(BenchError::PercentageTooHigh)
            } else {
                Ok(OpMix::Mixed { read_pct: n as u8 })
            },
        }
    }
}

/// The filler that values are made of: deterministic, so wire size and contents are the same in
/// every run.
pub open spec fn filler(size: nat) -> Seq<u8> {
    Seq::new(size, |i: int| ((i + 0x20) % 256) as u8)
}

/// A generator of operations.
pub struct Workload {
    keyspace: Keyspace,
    mix: OpMix,
    value: Vec<u8>,
    batch: usize,
}

impl Workload {
    pub closed spec fn wf(&self) -> bool {
        self.keyspace.wf()
    }

    /// The indices of the keys.
    pub closed spec fn indices(&self) -> Seq<u64> {
        self.keyspace@
    }

    pub closed spec fn mix(&self) -> OpMix {
        self.mix
    }

    pub closed spec fn filler(&self) -> Seq<u8> {
        self.value@
    }

    pub closed spec fn batch(&self) -> usize {
        self.batch
    }

    /// A workload of this mix, with values of this size. A batch of 1 means single-key operations;
    /// a larger one means that many keys in each call.
    pub fn new(keyspace: Keyspace, mix: OpMix, value_size: usize, batch: usize) -> (r: Workload)
        requires
            keyspace.wf(),
        ensures
            r.wf(),
            r.indices() == keyspace@,
            r.mix() == mix,
            r.filler() == filler(value_size as nat),
            r.batch() == batch,
    {
        let mut value: Vec<u8> = Vec::new();
        let mut b: u8 = 0x20;
        let mut i: usize = 0;
        while i < value_size
            invariant
                i <= value_size,
                value@.len() == i,
                b == (i + 0x20) % 256,
                forall|j: int| 0 <= j < i ==> value@[j] == ((j + 0x20) % 256) as u8,
            decreases value_size - i,
        {
            value.push(b);
            b = if b == 255 {
                0
            } else {
                b + 1
            };
            i = i + 1;
        }
        assert(value@ =~= filler(value_size as nat));
        Workload { keyspace, mix, value, batch }
    }

    pub fn keyspace(&self) -> (r: &Keyspace)
        requires
            self.wf(),
        ensures
            r.wf(),
            r@ == self.indices(),
    {
        &self.keyspace
    }

    pub fn value(&self) -> (r: &Vec<u8>)
        ensures
            r@ == self.filler(),
    {
        &self.value
    }

    /// How many positions the next operation needs.
    pub fn keys_per_op(&self) -> (n: usize)
        ensures
            n == (if self.batch() <= 1 {
                1
            } else {
                self.batch()
            }),
    {
        if self.batch <= 1 {
            1
        } else {
            self.batch
        }
    }

    /// Whether the next operation goes by a roll.
    pub fn rolls(&self) -> (r: bool)
        ensures
            r == (self.mix() is Mixed),
    {
        match self.mix {
            OpMix::Mixed { .. } => true,
            _ => false,
        }
    }

    /// The next operation, given the positions that were drawn for its keys and the roll for the
    /// mix, below 100: a mixed workload reads where the roll is below its read percentage.
    pub fn next(&self, positions: &Vec<u64>, roll: u8) -> (r: Op)
        requires
            self.wf(),
            positions@.len() > 0,
            forall|i: int|
                0 <= i < positions@.len() ==> #[trigger] positions@[i] < self.indices().len(),
        ensures
            r@ == next_op(
                drawn_keys(self.indices(), positions@),
                self.batch(),
                self.filler(),
                reads(self.mix(), roll),
            ),
    {
        let mut keys: Vec<Vec<u8>> = Vec::new();
        let mut i: usize = 0;
        while i < positions.len()
            invariant
                self.wf(),
                forall|j: int|
                    0 <= j < positions@.len() ==> #[trigger] positions@[j] < self.indices().len(),
                i <= positions@.len(),
                keys@.len() == i,
                forall|j: int|
                    0 <= j < i ==> (#[trigger] keys@[j])@ == drawn_keys(
                        self.indices(),
                        positions@,
                    )[j],
            decreases positions@.len() - i,
        {
            let pos: u64 = positions[i];
            assert(positions@[i as int] < self.indices().len());
            keys.push(self.keyspace.sample(pos));
            i = i + 1;
        }
        assert(keys_view(keys@) =~= drawn_keys(self.indices(), positions@));
        let read = match self.mix {
            OpMix::GetOnly => true,
            OpMix::SetOnly => false,
            OpMix::Mixed { read_pct } => roll < read_pct,
        };
        if self.batch <= 1 {
            let key = bytes::to_owned(keys[0].as_slice());
            if read {
                Op::Get { key }
            } else {
                Op::SetKey { key, value: bytes::to_owned(self.value.as_slice()) }
            }
        } else if read {
            Op::MGet { keys }
        } else {
            Op::MSet { keys, value: bytes::to_owned(self.value.as_slice()) }
        }
    }
}

/// The keys at these positions.
pub open spec fn drawn_keys(indices: Seq<u64>, positions: Seq<u64>) -> Seq<Seq<u8>> {
    Seq::new(positions.len(), |i: int| encode_utf8(key_text(indices[positions[i] as int])))
}

/// The operation reads.
pub open spec fn reads(mix: OpMix, roll: u8) -> bool {
    match mix {
        OpMix::GetOnly => true,
        OpMix::SetOnly => false,
        OpMix::Mixed { read_pct } => roll < read_pct,
    }
}

/// The operation on these keys.
pub open spec fn next_op(keys: Seq<Seq<u8>>, batch: usize, value: Seq<u8>, read: bool) -> OpView {
    if batch <= 1 {
        if read {
            OpView::Get { key: keys[0] }
        } else {
            OpView::SetKey { key: keys[0], value }
        }
    } else if read {
        OpView::MGet { keys }
    } else {
        OpView::MSet { keys, value }
    }
}

} // verus!
