//! The write history: what operations a database has accepted, in order,
//! and what a read at a point of that history sees.

use vstd::prelude::*;

use crate::bytes::{bytes_le, bytes_lt};

verus! {

/// One write operation.
pub ghost enum Op {
    /// `key` now has `value`.
    Put { key: Seq<u8>, value: Seq<u8> },
    /// `key` is gone.
    Delete { key: Seq<u8> },
    /// Every key in `[start, end)` is gone.
    DeleteRange { start: Seq<u8>, end: Seq<u8> },
    /// `operand` is layered on whatever `key` has.
    Merge { key: Seq<u8>, operand: Seq<u8> },
}

/// One write operation and the sequence number it was given.
pub ghost struct Logged {
    pub seq: u64,
    pub op: Op,
}

/// `ops` with consecutive sequence numbers from `base`.
pub open spec fn numbered(ops: Seq<Op>, base: int) -> Seq<Logged> {
    Seq::new(ops.len(), |i: int| Logged { seq: (base + i) as u64, op: ops[i] })
}

/// What one operation does to one key.
pub ghost enum Effect {
    /// Nothing.
    Nothing,
    /// The key now has this value, whatever it had.
    Value(Seq<u8>),
    /// The key is gone, whatever it had.
    Gone,
    /// The key has this operand on top of what it had.
    Operand(Seq<u8>),
}

/// Whether `[start, end)` holds `key`.
pub open spec fn covers(start: Seq<u8>, end: Seq<u8>, key: Seq<u8>) -> bool {
    bytes_le(start, key) && bytes_lt(key, end)
}

/// What `op` does to `key`.
pub open spec fn effect(op: Op, key: Seq<u8>) -> Effect {
    match op {
        Op::Put { key: k, value } => if k == key {
            Effect::Value(value)
        } else {
            Effect::Nothing
        },
        Op::Delete { key: k } => if k == key {
            Effect::Gone
        } else {
            Effect::Nothing
        },
        Op::DeleteRange { start, end } => if covers(start, end, key) {
            Effect::Gone
        } else {
            Effect::Nothing
        },
        Op::Merge { key: k, operand } => if k == key {
            Effect::Operand(operand)
        } else {
            Effect::Nothing
        },
    }
}

/// How far back a read of a key had to look.
pub ghost enum End {
    /// Past the start: nothing there settles the key.
    Open,
    /// To a deletion.
    Gone,
    /// To a value.
    Value(Seq<u8>),
}

/// What a stretch of history holds of one key: the operands layered since
/// the newest value or deletion, oldest first, and that value or deletion.
pub ghost struct Probe {
    pub operands: Seq<Seq<u8>>,
    pub end: End,
}

/// Read `key` in `h` as of sequence number `seq`, from the newest write back.
pub open spec fn probe(h: Seq<Logged>, key: Seq<u8>, seq: u64) -> Probe
    decreases h.len(),
{
    if h.len() == 0 {
        Probe { operands: Seq::empty(), end: End::Open }
    } else {
        let rest = probe(h.drop_last(), key, seq);
        if h.last().seq > seq {
            rest
        } else {
            match effect(h.last().op, key) {
                Effect::Nothing => rest,
                Effect::Value(value) => Probe { operands: Seq::empty(), end: End::Value(value) },
                Effect::Gone => Probe { operands: Seq::empty(), end: End::Gone },
                Effect::Operand(operand) => Probe {
                    operands: rest.operands.push(operand),
                    end: rest.end,
                },
            }
        }
    }
}

/// What a read finds in `older` history followed by `newer`, each probed.
pub open spec fn layered(older: Probe, newer: Probe) -> Probe {
    match newer.end {
        End::Open => Probe { operands: older.operands + newer.operands, end: older.end },
        _ => newer,
    }
}

/// The value a probe settles on before any operand.
pub open spec fn base_of(p: Probe) -> Option<Seq<u8>> {
    match p.end {
        End::Value(value) => Some(value),
        _ => None,
    }
}

/// Sequence numbers grow along the history, from one on.
pub open spec fn ordered(h: Seq<Logged>) -> bool {
    &&& forall|i: int| 0 <= i < h.len() ==> (#[trigger] h[i]).seq >= 1
    &&& forall|i: int, j: int|
        0 <= i < j < h.len() ==> (#[trigger] h[i]).seq < (#[trigger] h[j]).seq
}

/// No sequence number of `h` is above `bound`.
pub open spec fn within(h: Seq<Logged>, bound: u64) -> bool {
    forall|i: int| 0 <= i < h.len() ==> (#[trigger] h[i]).seq <= bound
}

/// Every sequence number of `h` is above `bound`.
pub open spec fn beyond(h: Seq<Logged>, bound: u64) -> bool {
    forall|i: int| 0 <= i < h.len() ==> (#[trigger] h[i]).seq > bound
}

/// A probe of a history in two stretches layers the probes of the two.
pub proof fn lemma_probe_layers(a: Seq<Logged>, b: Seq<Logged>, key: Seq<u8>, seq: u64)
    ensures
        probe(a + b, key, seq) == layered(probe(a, key, seq), probe(b, key, seq)),
    decreases b.len(),
{
    if b.len() == 0 {
        assert(a + b =~= a);
        assert(probe(a, key, seq).operands + Seq::<Seq<u8>>::empty() =~= probe(
            a,
            key,
            seq,
        ).operands);
    } else {
        assert((a + b).drop_last() =~= a + b.drop_last());
        assert((a + b).last() == b.last());
        lemma_probe_layers(a, b.drop_last(), key, seq);
        let pa = probe(a, key, seq);
        let pb = probe(b.drop_last(), key, seq);
        if b.last().seq <= seq {
            match effect(b.last().op, key) {
                Effect::Operand(operand) => {
                    assert((pa.operands + pb.operands).push(operand) =~= pa.operands
                        + pb.operands.push(operand));
                },
                _ => {},
            }
        }
    }
}

/// Writes after a point of the history are invisible to a read at it: what
/// is accepted later never changes what a snapshot sees.
pub proof fn lemma_later_writes_invisible(
    h: Seq<Logged>,
    later: Seq<Logged>,
    key: Seq<u8>,
    seq: u64,
)
    requires
        beyond(later, seq),
    ensures
        probe(h + later, key, seq) == probe(h, key, seq),
    decreases later.len(),
{
    if later.len() == 0 {
        assert(h + later =~= h);
    } else {
        assert((h + later).drop_last() =~= h + later.drop_last());
        assert(beyond(later.drop_last(), seq)) by {
            assert forall|i: int| 0 <= i < later.drop_last().len() implies (
            #[trigger] later.drop_last()[i]).seq > seq by {
                assert(later[i].seq > seq);
            }
        }
        lemma_later_writes_invisible(h, later.drop_last(), key, seq);
        assert(later[later.len() - 1].seq > seq);
    }
}

/// A stretch of history that does nothing to a key probes open.
pub proof fn lemma_untouched(h: Seq<Logged>, key: Seq<u8>, seq: u64)
    requires
        forall|i: int|
            0 <= i < h.len() && (#[trigger] h[i]).seq <= seq ==> effect(h[i].op, key)
                == Effect::Nothing,
    ensures
        probe(h, key, seq) == (Probe { operands: Seq::empty(), end: End::Open }),
    decreases h.len(),
{
    if h.len() > 0 {
        let rest = h.drop_last();
        assert forall|i: int| 0 <= i < rest.len() && (#[trigger] rest[i]).seq <= seq implies effect(
            rest[i].op,
            key,
        ) == Effect::Nothing by {
            assert(rest[i] == h[i]);
        }
        lemma_untouched(rest, key, seq);
        assert(h[h.len() - 1] == h.last());
    }
}

/// Lowering the read point past writes that do nothing to the key changes
/// nothing.
pub proof fn lemma_probe_lower(h: Seq<Logged>, key: Seq<u8>, from: u64, to: u64)
    requires
        to <= from,
        forall|i: int|
            0 <= i < h.len() && to < (#[trigger] h[i]).seq <= from ==> effect(h[i].op, key)
                == Effect::Nothing,
    ensures
        probe(h, key, from) == probe(h, key, to),
    decreases h.len(),
{
    if h.len() > 0 {
        let rest = h.drop_last();
        assert forall|i: int|
            0 <= i < rest.len() && to < (#[trigger] rest[i]).seq <= from implies effect(
            rest[i].op,
            key,
        ) == Effect::Nothing by {
            assert(rest[i] == h[i]);
        }
        lemma_probe_lower(rest, key, from, to);
        assert(h[h.len() - 1] == h.last());
    }
}

/// A read exactly at a write that touches the key takes that write's effect
/// on top of what the history before it holds.
pub proof fn lemma_probe_at(h: Seq<Logged>, key: Seq<u8>, i: int)
    requires
        ordered(h),
        0 <= i < h.len(),
    ensures
        ({
            let before = probe(h, key, (h[i].seq - 1) as u64);
            probe(h, key, h[i].seq) == match effect(h[i].op, key) {
                Effect::Nothing => before,
                Effect::Value(value) => Probe { operands: Seq::empty(), end: End::Value(value) },
                Effect::Gone => Probe { operands: Seq::empty(), end: End::Gone },
                Effect::Operand(operand) => Probe {
                    operands: before.operands.push(operand),
                    end: before.end,
                },
            }
        }),
    decreases h.len(),
{
    let rest = h.drop_last();
    let n = h.len() - 1;
    assert(h[n] == h.last());
    if i < n {
        assert(ordered(rest)) by {
            assert forall|j: int| 0 <= j < rest.len() implies (#[trigger] rest[j]).seq >= 1 by {
                assert(rest[j] == h[j]);
            }
            assert forall|j: int, k: int| 0 <= j < k < rest.len() implies (
            #[trigger] rest[j]).seq < (#[trigger] rest[k]).seq by {
                assert(rest[j] == h[j]);
                assert(rest[k] == h[k]);
            }
        }
        lemma_probe_at(rest, key, i);
        assert(rest[i] == h[i]);
        assert(h[i].seq < h[n].seq);
    } else {
        let s = h[i].seq;
        assert forall|j: int|
            0 <= j < rest.len() && ((s - 1) as u64) < (#[trigger] rest[j]).seq <= s implies effect(
            rest[j].op,
            key,
        ) == Effect::Nothing by {
            assert(rest[j] == h[j]);
            assert(h[j].seq < h[n].seq);
        }
        lemma_probe_lower(rest, key, s, (s - 1) as u64);
    }
}

/// A key that a read finds something of was named by a point write.
pub proof fn lemma_found_was_written(h: Seq<Logged>, key: Seq<u8>, seq: u64) -> (i: int)
    requires
        base_of(probe(h, key, seq)) is Some || probe(h, key, seq).operands.len() > 0,
    ensures
        0 <= i < h.len(),
        effect(h[i].op, key) is Value || effect(h[i].op, key) is Operand,
    decreases h.len(),
{
    let n = h.len() - 1;
    let rest = h.drop_last();
    if h.last().seq <= seq && (effect(h.last().op, key) is Value || effect(
        h.last().op,
        key,
    ) is Operand) {
        assert(h[n] == h.last());
        n
    } else {
        let i = lemma_found_was_written(rest, key, seq);
        assert(rest[i] == h[i]);
        i
    }
}

} // verus!
