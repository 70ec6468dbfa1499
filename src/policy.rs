//! The merge policy that the store calls on a trace's keyspace: how to
//! order encoded keys, how to combine a record with a pending merge
//! operation, and what a fully merged record finally becomes.

use vstd::prelude::*;
use core::cmp::Ordering;
use crate::codec::{
    decode_key, decode_op, decode_pv, enc_pv, encode_pv, op_model, parse_op, parse_pv, parse_u64,
    pv_model, OpModel, PvModel,
};
use crate::merge::{apply_merge_op, list_recede_weight, op_weight};
use crate::record::{
    check_op, check_pv, entry_view, list_view, list_weight, list_wf, wadd, ListModel, PersistedValue, ValueList,
};

verus! {

/// How the store is to treat a record.
#[derive(Clone, Copy, Debug, PartialEq, Eq, Structural)]
pub enum MessageType {
    /// The record replaces whatever the key held.
    Insert,
    /// The record is to be merged with what the key holds.
    Update,
    /// The key is to be removed.
    Delete,
}

/// A record as the store hands it over: its kind and its bytes.
#[derive(Clone, Debug, PartialEq, Eq)]
pub struct Message {
    pub msg_type: MessageType,
    pub data: Vec<u8>,
}

/// The value list of a persisted value's model; empty for a tombstone.
pub open spec fn pvm_list(m: PvModel) -> ListModel {
    match m {
        PvModel::Values(l) => l,
        PvModel::Tombstone => Seq::empty(),
    }
}

pub open spec fn pvm_wf(m: PvModel) -> bool {
    match m {
        PvModel::Values(l) => l.len() > 0 && list_wf(l),
        PvModel::Tombstone => true,
    }
}

pub open spec fn opm_wf(m: OpModel) -> bool {
    match m {
        OpModel::Insert(l) => list_wf(l),
        OpModel::RecedeTo(_) => true,
    }
}

/// The weight of value `v` at time `t` in what operation `m` makes of `l`.
pub open spec fn opm_weight(l: ListModel, m: OpModel, v: Seq<u8>, t: u64) -> i64 {
    match m {
        OpModel::Insert(ins) => wadd(list_weight(l, v, t), list_weight(ins, v, t)),
        OpModel::RecedeTo(f) => list_recede_weight(l, f, v, t),
    }
}

/// Both records decode, from their first byte, to well-formed ones.
pub open spec fn merge_inputs_ok(old_bytes: Seq<u8>, new_bytes: Seq<u8>) -> bool {
    &&& parse_pv(old_bytes, 0) matches Some((pm, _)) && pvm_wf(pm)
    &&& parse_op(new_bytes, 0) matches Some((om, _)) && opm_wf(om)
}

/// Whether a value list holds a non-zero weight anywhere.
pub open spec fn has_weight(l: ListModel) -> bool {
    exists|i: int, j: int| 0 <= i < l.len() && 0 <= j < l[i].1.len() && (#[trigger] l[i].1[j]).1 != 0
}

/// Whether both records decode to well-formed ones, which `merge` asks of
/// its caller: stored bytes that do not are corrupt, and corruption is
/// fatal to whoever meets it.
pub fn check_merge_inputs(old_bytes: &Vec<u8>, new_bytes: &Vec<u8>) -> (r: bool)
    ensures
        r == merge_inputs_ok(old_bytes@, new_bytes@),
{
    let pv = match decode_pv(old_bytes) {
        Some((pv, _)) => pv,
        None => return false,
    };
    let op = match decode_op(new_bytes) {
        Some((op, _)) => op,
        None => return false,
    };
    check_pv(&pv) && check_op(&op)
}

/// Whether a value list holds a non-zero weight anywhere.
fn list_has_weight(l: &ValueList) -> (r: bool)
    ensures
        r == has_weight(list_view(l@)),
{
    let ghost lv = list_view(l@);
    let mut i: usize = 0;
    while i < l.len()
        invariant
            0 <= i <= l@.len(),
            lv == list_view(l@),
            forall|a: int, b: int| 0 <= a < i && 0 <= b < lv[a].1.len() ==> (#[trigger] lv[a].1[b]).1 == 0,
            lv.len() == l@.len(),
        decreases l@.len() - i,
    {
        assert(lv[i as int] == entry_view(l@[i as int]));
        let ts = &l[i].1;
        let mut j: usize = 0;
        while j < ts.len()
            invariant
                0 <= j <= ts@.len(),
                i < l@.len(),
                lv == list_view(l@),
                ts@ == lv[i as int].1,
                forall|b: int| 0 <= b < j ==> (#[trigger] lv[i as int].1[b]).1 == 0,
            decreases ts@.len() - j,
        {
            if ts[j].1 != 0 {
                assert((lv[i as int].1[j as int]).1 != 0);
                assert(0 <= i < lv.len() && 0 <= j < lv[i as int].1.len());
                assert(has_weight(lv));
                return true;
            }
            j = j + 1;
        }
        i = i + 1;
    }
    false
}

/// The merge policy of a trace's keyspace.
pub struct DbspSplinterFuncs;

impl DbspSplinterFuncs {
    /// Orders two encoded keys by the keys they encode. Both must decode:
    /// a key that does not is corrupt.
    pub fn key_comp(a: &Vec<u8>, b: &Vec<u8>) -> (r: Ordering)
        requires
            parse_u64(a@, 0) is Some,
            parse_u64(b@, 0) is Some,
        ensures
            parse_u64(a@, 0) matches Some((ka, _)) && parse_u64(b@, 0) matches Some((kb, _)) && r == if ka
                < kb {
                Ordering::Less
            } else if ka == kb {
                Ordering::Equal
            } else {
                Ordering::Greater
            },
    {
        let ka = decode_key(a).unwrap();
        let kb = decode_key(b).unwrap();
        if ka < kb {
            Ordering::Less
        } else if ka == kb {
            Ordering::Equal
        } else {
            Ordering::Greater
        }
    }

    /// Combines the record a key holds (`old_msg`, a persisted value) with a
    /// pending merge operation (`new_msg`) into an update record holding,
    /// for every value and time, the weight the operation asks for; it is a
    /// tombstone when no weight is left, and decodes back to exactly that.
    /// Both records must decode to well-formed ones (`check_merge_inputs`):
    /// stored bytes that do not are corrupt.
    pub fn merge(key_bytes: &Vec<u8>, old_msg: &Message, new_msg: &Message) -> (r: Message)
        requires
            merge_inputs_ok(old_msg.data@, new_msg.data@),
        ensures
            r.msg_type == MessageType::Update,
            parse_pv(old_msg.data@, 0) matches Some((pm, _)) && parse_op(new_msg.data@, 0) matches Some(
                (om, _),
            ) && exists|rm: PvModel|
                {
                    &&& r.data@ == enc_pv(rm)
                    &&& parse_pv(r.data@, 0) == Some((rm, r.data@.len() as int))
                    &&& pvm_wf(rm)
                    &&& forall|v: Seq<u8>, t: u64|
                        #[trigger] list_weight(pvm_list(rm), v, t) == opm_weight(pvm_list(pm), om, v, t)
                },
    {
        let (pv, _) = decode_pv(&old_msg.data).unwrap();
        let (op, _) = decode_op(&new_msg.data).unwrap();
        let out = apply_merge_op(&pv, &op);
        let data = encode_pv(&out);
        proof {
            let rm = pv_model(out);
            assert(pvm_list(pv_model(pv)) == crate::record::pv_list(pv));
            assert(pvm_list(rm) == crate::record::pv_list(out));
            assert forall|v: Seq<u8>, t: u64| #[trigger] list_weight(pvm_list(rm), v, t) == opm_weight(
                pvm_list(pv_model(pv)),
                op_model(op),
                v,
                t,
            ) by {
                assert(list_weight(crate::record::pv_list(out), v, t) == op_weight(
                    crate::record::pv_list(pv),
                    op,
                    v,
                    t,
                ));
            }
        }
        Message { msg_type: MessageType::Update, data }
    }

    /// Turns a fully merged record into what the store keeps: a deletion of
    /// the key when the record holds no non-zero weight (a tombstone, or
    /// only zero weights), otherwise the record itself as an insert. The
    /// record must decode: one that does not is corrupt.
    pub fn merge_final(key_bytes: &Vec<u8>, oldest_msg: &Message) -> (r: Message)
        requires
            parse_pv(oldest_msg.data@, 0) is Some,
        ensures
            r.data@ == oldest_msg.data@,
            parse_pv(oldest_msg.data@, 0) matches Some((pm, _)) && r.msg_type == if has_weight(pvm_list(pm)) {
                MessageType::Insert
            } else {
                MessageType::Delete
            },
    {
        let (pv, _) = decode_pv(&oldest_msg.data).unwrap();
        let live = match &pv {
            PersistedValue::Tombstone => false,
            PersistedValue::Values(l) => list_has_weight(l),
        };
        proof {
            if pv is Tombstone {
                assert(pvm_list(pv_model(pv)) =~= Seq::<(Seq<u8>, Seq<(u64, i64)>)>::empty());
            }
        }
        let msg_type = if live {
            MessageType::Insert
        } else {
            MessageType::Delete
        };
        Message { msg_type, data: crate::record::copy_bytes(&oldest_msg.data) }
    }
}

} // verus!
