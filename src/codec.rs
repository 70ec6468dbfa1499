//! The byte layout of keys, values, times, weights and the two record
//! shapes: integers fixed-width big-endian (so that byte order follows
//! numeric order for keys and times), byte strings and lists prefixed with
//! their length as a `u64`, and record shapes prefixed with their variant as
//! a `u32`.

use vstd::prelude::*;
use crate::record::{entry_view, list_view, EntryModel, ListModel, MergeOp, PersistedValue, TimesModel, ValueList, TimeWeights};

verus! {

/// Model of a persisted value.
pub enum PvModel {
    Values(ListModel),
    Tombstone,
}

/// Model of a merge operation.
pub enum OpModel {
    Insert(ListModel),
    RecedeTo(u64),
}

pub open spec fn pv_model(pv: PersistedValue) -> PvModel {
    match pv {
        PersistedValue::Values(l) => PvModel::Values(list_view(l@)),
        PersistedValue::Tombstone => PvModel::Tombstone,
    }
}

pub open spec fn op_model(op: MergeOp) -> OpModel {
    match op {
        MergeOp::Insert(l) => OpModel::Insert(list_view(l@)),
        MergeOp::RecedeTo(t) => OpModel::RecedeTo(t),
    }
}

pub open spec fn enc_u64(x: u64) -> Seq<u8> {
    seq![
        (x >> 56u64) as u8,
        (x >> 48u64) as u8,
        (x >> 40u64) as u8,
        (x >> 32u64) as u8,
        (x >> 24u64) as u8,
        (x >> 16u64) as u8,
        (x >> 8u64) as u8,
        x as u8,
    ]
}

pub open spec fn enc_u32(x: u32) -> Seq<u8> {
    seq![(x >> 24u32) as u8, (x >> 16u32) as u8, (x >> 8u32) as u8, x as u8]
}

pub open spec fn enc_i64(x: i64) -> Seq<u8> {
    enc_u64(x as u64)
}

pub open spec fn enc_bytes(b: Seq<u8>) -> Seq<u8> {
    enc_u64(b.len() as u64) + b
}

pub open spec fn enc_tw_items(ts: TimesModel) -> Seq<u8>
    decreases ts.len(),
{
    if ts.len() == 0 {
        Seq::empty()
    } else {
        enc_tw_items(ts.drop_last()) + enc_u64(ts.last().0) + enc_i64(ts.last().1)
    }
}

pub open spec fn enc_times(ts: TimesModel) -> Seq<u8> {
    enc_u64(ts.len() as u64) + enc_tw_items(ts)
}

pub open spec fn enc_entry(e: EntryModel) -> Seq<u8> {
    enc_bytes(e.0) + enc_times(e.1)
}

pub open spec fn enc_entries(l: ListModel) -> Seq<u8>
    decreases l.len(),
{
    if l.len() == 0 {
        Seq::empty()
    } else {
        enc_entries(l.drop_last()) + enc_entry(l.last())
    }
}

pub open spec fn enc_list(l: ListModel) -> Seq<u8> {
    enc_u64(l.len() as u64) + enc_entries(l)
}

/// The encoding of a persisted value.
pub open spec fn enc_pv(m: PvModel) -> Seq<u8> {
    match m {
        PvModel::Values(l) => enc_u32(0) + enc_list(l),
        PvModel::Tombstone => enc_u32(1),
    }
}

/// The encoding of a merge operation.
pub open spec fn enc_op(m: OpModel) -> Seq<u8> {
    match m {
        OpModel::Insert(l) => enc_u32(0) + enc_list(l),
        OpModel::RecedeTo(t) => enc_u32(1) + enc_u64(t),
    }
}

/// The `u64` whose encoding starts at `p`.
pub open spec fn be_u64(b: Seq<u8>, p: int) -> u64 {
    ((b[p] as u64) << 56u64) | ((b[p + 1] as u64) << 48u64) | ((b[p + 2] as u64) << 40u64) | ((b[p
        + 3] as u64) << 32u64) | ((b[p + 4] as u64) << 24u64) | ((b[p + 5] as u64) << 16u64) | ((b[p
        + 6] as u64) << 8u64) | (b[p + 7] as u64)
}

/// The `u32` whose encoding starts at `p`.
pub open spec fn be_u32(b: Seq<u8>, p: int) -> u32 {
    ((b[p] as u32) << 24u32) | ((b[p + 1] as u32) << 16u32) | ((b[p + 2] as u32) << 8u32) | (b[p
        + 3] as u32)
}

pub open spec fn parse_u64(b: Seq<u8>, p: int) -> Option<(u64, int)> {
    if 0 <= p && p + 8 <= b.len() {
        Some((be_u64(b, p), p + 8))
    } else {
        None
    }
}

pub open spec fn parse_u32(b: Seq<u8>, p: int) -> Option<(u32, int)> {
    if 0 <= p && p + 4 <= b.len() {
        Some((be_u32(b, p), p + 4))
    } else {
        None
    }
}

pub open spec fn parse_bytes(b: Seq<u8>, p: int) -> Option<(Seq<u8>, int)> {
    match parse_u64(b, p) {
        Some((n, q)) => if q + n <= b.len() {
            Some((b.subrange(q, q + n), q + n))
        } else {
            None
        },
        None => None,
    }
}

/// Parses `n` `(time, weight)` pairs from `p` on.
pub open spec fn parse_tw_items(b: Seq<u8>, p: int, n: nat) -> Option<(TimesModel, int)>
    decreases n,
{
    if n == 0 {
        Some((Seq::empty(), p))
    } else {
        match parse_tw_items(b, p, (n - 1) as nat) {
            Some((s, q)) => match parse_u64(b, q) {
                Some((t, q2)) => match parse_u64(b, q2) {
                    Some((w, q3)) => Some((s.push((t, w as i64)), q3)),
                    None => None,
                },
                None => None,
            },
            None => None,
        }
    }
}

pub open spec fn parse_times(b: Seq<u8>, p: int) -> Option<(TimesModel, int)> {
    match parse_u64(b, p) {
        Some((n, q)) => parse_tw_items(b, q, n as nat),
        None => None,
    }
}

pub open spec fn parse_entry(b: Seq<u8>, p: int) -> Option<(EntryModel, int)> {
    match parse_bytes(b, p) {
        Some((v, q)) => match parse_times(b, q) {
            Some((ts, q2)) => Some(((v, ts), q2)),
            None => None,
        },
        None => None,
    }
}

/// Parses `n` entries from `p` on.
pub open spec fn parse_entries(b: Seq<u8>, p: int, n: nat) -> Option<(ListModel, int)>
    decreases n,
{
    if n == 0 {
        Some((Seq::empty(), p))
    } else {
        match parse_entries(b, p, (n - 1) as nat) {
            Some((s, q)) => match parse_entry(b, q) {
                Some((e, q2)) => Some((s.push(e), q2)),
                None => None,
            },
            None => None,
        }
    }
}

pub open spec fn parse_list(b: Seq<u8>, p: int) -> Option<(ListModel, int)> {
    match parse_u64(b, p) {
        Some((n, q)) => parse_entries(b, q, n as nat),
        None => None,
    }
}

/// Parses a persisted value from `p` on.
pub open spec fn parse_pv(b: Seq<u8>, p: int) -> Option<(PvModel, int)> {
    match parse_u32(b, p) {
        Some((tag, q)) => if tag == 0 {
            match parse_list(b, q) {
                Some((l, q2)) => Some((PvModel::Values(l), q2)),
                None => None,
            }
        } else if tag == 1 {
            Some((PvModel::Tombstone, q))
        } else {
            None
        },
        None => None,
    }
}

/// Parses a merge operation from `p` on.
pub open spec fn parse_op(b: Seq<u8>, p: int) -> Option<(OpModel, int)> {
    match parse_u32(b, p) {
        Some((tag, q)) => if tag == 0 {
            match parse_list(b, q) {
                Some((l, q2)) => Some((OpModel::Insert(l), q2)),
                None => None,
            }
        } else if tag == 1 {
            match parse_u64(b, q) {
                Some((t, q2)) => Some((OpModel::RecedeTo(t), q2)),
                None => None,
            }
        } else {
            None
        },
        None => None,
    }
}

/// `b` holds `e` from `p` on.
pub open spec fn holds_at(b: Seq<u8>, p: int, e: Seq<u8>) -> bool {
    0 <= p && p + e.len() <= b.len() && b.subrange(p, p + e.len()) == e
}

proof fn lemma_holds_split(b: Seq<u8>, p: int, e1: Seq<u8>, e2: Seq<u8>)
    requires
        holds_at(b, p, e1 + e2),
    ensures
        holds_at(b, p, e1),
        holds_at(b, p + e1.len(), e2),
{
    assert(b.subrange(p, p + e1.len()) =~= (e1 + e2).subrange(0, e1.len() as int));
    assert((e1 + e2).subrange(0, e1.len() as int) =~= e1);
    assert(b.subrange(p + e1.len(), p + e1.len() + e2.len()) =~= (e1 + e2).subrange(
        e1.len() as int,
        (e1.len() + e2.len()) as int,
    ));
    assert((e1 + e2).subrange(e1.len() as int, (e1.len() + e2.len()) as int) =~= e2);
}

pub proof fn lemma_u64_round_trip(b: Seq<u8>, p: int, x: u64)
    requires
        holds_at(b, p, enc_u64(x)),
    ensures
        parse_u64(b, p) == Some((x, p + 8)),
{
    let e = enc_u64(x);
    assert(b[p] == e[0] && b[p + 1] == e[1] && b[p + 2] == e[2] && b[p + 3] == e[3]) by {
        assert(b.subrange(p, p + 8)[0] == b[p]);
        assert(b.subrange(p, p + 8)[1] == b[p + 1]);
        assert(b.subrange(p, p + 8)[2] == b[p + 2]);
        assert(b.subrange(p, p + 8)[3] == b[p + 3]);
    }
    assert(b[p + 4] == e[4] && b[p + 5] == e[5] && b[p + 6] == e[6] && b[p + 7] == e[7]) by {
        assert(b.subrange(p, p + 8)[4] == b[p + 4]);
        assert(b.subrange(p, p + 8)[5] == b[p + 5]);
        assert(b.subrange(p, p + 8)[6] == b[p + 6]);
        assert(b.subrange(p, p + 8)[7] == b[p + 7]);
    }
    let b0 = (x >> 56u64) as u8;
    let b1 = (x >> 48u64) as u8;
    let b2 = (x >> 40u64) as u8;
    let b3 = (x >> 32u64) as u8;
    let b4 = (x >> 24u64) as u8;
    let b5 = (x >> 16u64) as u8;
    let b6 = (x >> 8u64) as u8;
    let b7 = x as u8;
    assert(((b0 as u64) << 56u64) | ((b1 as u64) << 48u64) | ((b2 as u64) << 40u64) | ((b3 as u64)
        << 32u64) | ((b4 as u64) << 24u64) | ((b5 as u64) << 16u64) | ((b6 as u64) << 8u64) | (b7 as u64)
        == x) by (bit_vector)
        requires
            b0 == (x >> 56u64) as u8,
            b1 == (x >> 48u64) as u8,
            b2 == (x >> 40u64) as u8,
            b3 == (x >> 32u64) as u8,
            b4 == (x >> 24u64) as u8,
            b5 == (x >> 16u64) as u8,
            b6 == (x >> 8u64) as u8,
            b7 == x as u8,
    ;
}

pub proof fn lemma_u32_round_trip(b: Seq<u8>, p: int, x: u32)
    requires
        holds_at(b, p, enc_u32(x)),
    ensures
        parse_u32(b, p) == Some((x, p + 4)),
{
    let e = enc_u32(x);
    assert(b[p] == e[0] && b[p + 1] == e[1] && b[p + 2] == e[2] && b[p + 3] == e[3]) by {
        assert(b.subrange(p, p + 4)[0] == b[p]);
        assert(b.subrange(p, p + 4)[1] == b[p + 1]);
        assert(b.subrange(p, p + 4)[2] == b[p + 2]);
        assert(b.subrange(p, p + 4)[3] == b[p + 3]);
    }
    let b0 = (x >> 24u32) as u8;
    let b1 = (x >> 16u32) as u8;
    let b2 = (x >> 8u32) as u8;
    let b3 = x as u8;
    assert(((b0 as u32) << 24u32) | ((b1 as u32) << 16u32) | ((b2 as u32) << 8u32) | (b3 as u32) == x)
        by (bit_vector)
        requires
            b0 == (x >> 24u32) as u8,
            b1 == (x >> 16u32) as u8,
            b2 == (x >> 8u32) as u8,
            b3 == x as u8,
    ;
}

pub proof fn lemma_i64_cast_round_trip(x: i64)
    ensures
        (x as u64) as i64 == x,
{
    assert((x as u64) as i64 == x) by (bit_vector);
}

/// Every length in a value list fits the `u64` that encodes it.
pub open spec fn list_fits(l: ListModel) -> bool {
    &&& l.len() <= u64::MAX
    &&& forall|i: int| 0 <= i < l.len() ==> (#[trigger] l[i]).0.len() <= u64::MAX && l[i].1.len() <= u64::MAX
}

pub open spec fn pv_fits(m: PvModel) -> bool {
    match m {
        PvModel::Values(l) => list_fits(l),
        PvModel::Tombstone => true,
    }
}

pub open spec fn op_fits(m: OpModel) -> bool {
    match m {
        OpModel::Insert(l) => list_fits(l),
        OpModel::RecedeTo(_) => true,
    }
}

proof fn lemma_bytes_round_trip(b: Seq<u8>, p: int, v: Seq<u8>)
    requires
        v.len() <= u64::MAX,
        holds_at(b, p, enc_bytes(v)),
    ensures
        parse_bytes(b, p) == Some((v, p + enc_bytes(v).len())),
{
    lemma_holds_split(b, p, enc_u64(v.len() as u64), v);
    lemma_u64_round_trip(b, p, v.len() as u64);
}

proof fn lemma_tw_items_round_trip(b: Seq<u8>, p: int, ts: TimesModel)
    requires
        holds_at(b, p, enc_tw_items(ts)),
    ensures
        parse_tw_items(b, p, ts.len()) == Some((ts, p + enc_tw_items(ts).len())),
    decreases ts.len(),
{
    if ts.len() > 0 {
        let init = ts.drop_last();
        let (t, w) = ts.last();
        lemma_holds_split(b, p, enc_tw_items(init) + enc_u64(t), enc_i64(w));
        lemma_holds_split(b, p, enc_tw_items(init), enc_u64(t));
        lemma_tw_items_round_trip(b, p, init);
        lemma_u64_round_trip(b, p + enc_tw_items(init).len(), t);
        lemma_u64_round_trip(b, p + enc_tw_items(init).len() + 8, w as u64);
        lemma_i64_cast_round_trip(w);
        assert(init.push((t, w)) =~= ts);
    }
}

proof fn lemma_times_round_trip(b: Seq<u8>, p: int, ts: TimesModel)
    requires
        ts.len() <= u64::MAX,
        holds_at(b, p, enc_times(ts)),
    ensures
        parse_times(b, p) == Some((ts, p + enc_times(ts).len())),
{
    lemma_holds_split(b, p, enc_u64(ts.len() as u64), enc_tw_items(ts));
    lemma_u64_round_trip(b, p, ts.len() as u64);
    lemma_tw_items_round_trip(b, p + 8, ts);
}

proof fn lemma_entries_round_trip(b: Seq<u8>, p: int, l: ListModel)
    requires
        list_fits(l),
        holds_at(b, p, enc_entries(l)),
    ensures
        parse_entries(b, p, l.len()) == Some((l, p + enc_entries(l).len())),
    decreases l.len(),
{
    if l.len() > 0 {
        let init = l.drop_last();
        let e = l.last();
        assert(list_fits(init)) by {
            assert forall|i: int| 0 <= i < init.len() implies (#[trigger] init[i]).0.len() <= u64::MAX
                && init[i].1.len() <= u64::MAX by {
                assert(init[i] == l[i]);
            }
        }
        assert(l[l.len() - 1] == e);
        lemma_holds_split(b, p, enc_entries(init), enc_entry(e));
        lemma_entries_round_trip(b, p, init);
        let q = p + enc_entries(init).len();
        lemma_holds_split(b, q, enc_bytes(e.0), enc_times(e.1));
        lemma_bytes_round_trip(b, q, e.0);
        lemma_times_round_trip(b, q + enc_bytes(e.0).len(), e.1);
        assert(init.push(e) =~= l);
    }
}

proof fn lemma_list_round_trip(b: Seq<u8>, p: int, l: ListModel)
    requires
        list_fits(l),
        holds_at(b, p, enc_list(l)),
    ensures
        parse_list(b, p) == Some((l, p + enc_list(l).len())),
{
    lemma_holds_split(b, p, enc_u64(l.len() as u64), enc_entries(l));
    lemma_u64_round_trip(b, p, l.len() as u64);
    lemma_entries_round_trip(b, p + 8, l);
}

/// Decoding the encoding of a persisted value, followed by any bytes at
/// all, gives the value back and stops where its encoding ends.
pub proof fn lemma_pv_round_trip(m: PvModel, rest: Seq<u8>)
    requires
        pv_fits(m),
    ensures
        parse_pv(enc_pv(m) + rest, 0) == Some((m, enc_pv(m).len() as int)),
{
    let b = enc_pv(m) + rest;
    assert(b.subrange(0, enc_pv(m).len() as int) =~= enc_pv(m));
    match m {
        PvModel::Values(l) => {
            lemma_holds_split(b, 0, enc_u32(0), enc_list(l));
            lemma_u32_round_trip(b, 0, 0);
            lemma_list_round_trip(b, 4, l);
        },
        PvModel::Tombstone => {
            lemma_u32_round_trip(b, 0, 1);
        },
    }
}

/// Decoding the encoding of a merge operation, followed by any bytes at
/// all, gives the operation back and stops where its encoding ends.
pub proof fn lemma_op_round_trip(m: OpModel, rest: Seq<u8>)
    requires
        op_fits(m),
    ensures
        parse_op(enc_op(m) + rest, 0) == Some((m, enc_op(m).len() as int)),
{
    let b = enc_op(m) + rest;
    assert(b.subrange(0, enc_op(m).len() as int) =~= enc_op(m));
    match m {
        OpModel::Insert(l) => {
            lemma_holds_split(b, 0, enc_u32(0), enc_list(l));
            lemma_u32_round_trip(b, 0, 0);
            lemma_list_round_trip(b, 4, l);
        },
        OpModel::RecedeTo(t) => {
            lemma_holds_split(b, 0, enc_u32(1), enc_u64(t));
            lemma_u32_round_trip(b, 0, 1);
            lemma_u64_round_trip(b, 4, t);
        },
    }
}

/// Decoding the encoding of a key, time or weight gives it back.
pub proof fn lemma_integer_round_trip(x: u64, w: i64, rest: Seq<u8>)
    ensures
        parse_u64(enc_u64(x) + rest, 0) == Some((x, 8int)),
        parse_u64(enc_i64(w) + rest, 0) == Some((w as u64, 8int)),
        (w as u64) as i64 == w,
{
    assert((enc_u64(x) + rest).subrange(0, 8) =~= enc_u64(x));
    lemma_u64_round_trip(enc_u64(x) + rest, 0, x);
    assert((enc_i64(w) + rest).subrange(0, 8) =~= enc_i64(w));
    lemma_u64_round_trip(enc_i64(w) + rest, 0, w as u64);
    lemma_i64_cast_round_trip(w);
}

/// Decoding the encoding of a value gives it back.
pub proof fn lemma_value_round_trip(v: Seq<u8>, rest: Seq<u8>)
    requires
        v.len() <= u64::MAX,
    ensures
        parse_bytes(enc_bytes(v) + rest, 0) == Some((v, enc_bytes(v).len() as int)),
{
    assert((enc_bytes(v) + rest).subrange(0, enc_bytes(v).len() as int) =~= enc_bytes(v));
    lemma_bytes_round_trip(enc_bytes(v) + rest, 0, v);
}

proof fn lemma_tw_items_fail(b: Seq<u8>, p: int, i: nat, n: nat)
    requires
        parse_tw_items(b, p, i) is None,
        i <= n,
    ensures
        parse_tw_items(b, p, n) is None,
    decreases n - i,
{
    if i < n {
        lemma_tw_items_fail(b, p, i, (n - 1) as nat);
    }
}

proof fn lemma_entries_fail(b: Seq<u8>, p: int, i: nat, n: nat)
    requires
        parse_entries(b, p, i) is None,
        i <= n,
    ensures
        parse_entries(b, p, n) is None,
    decreases n - i,
{
    if i < n {
        lemma_entries_fail(b, p, i, (n - 1) as nat);
    }
}

/// Every length in a value list fits the `u64` that encodes it; the
/// lengths are read here so that their bound as `usize` is known.
pub fn list_lengths_fit(l: &ValueList)
    ensures
        list_fits(list_view(l@)),
{
    let n = l.len();
    assert(n as int <= u64::MAX);
    let mut i: usize = 0;
    while i < n
        invariant
            0 <= i <= n,
            n == l@.len(),
            forall|j: int| 0 <= j < i ==> (#[trigger] list_view(l@)[j]).0.len() <= u64::MAX
                && list_view(l@)[j].1.len() <= u64::MAX,
        decreases n - i,
    {
        let a = l[i].0.len();
        let b = l[i].1.len();
        assert(list_view(l@)[i as int] == entry_view(l@[i as int]));
        i = i + 1;
    }
}

/// Appends the encoding of a `u64`.
pub fn put_u64(out: &mut Vec<u8>, x: u64)
    ensures
        final(out)@ == old(out)@ + enc_u64(x),
{
    out.push((x >> 56u64) as u8);
    out.push((x >> 48u64) as u8);
    out.push((x >> 40u64) as u8);
    out.push((x >> 32u64) as u8);
    out.push((x >> 24u64) as u8);
    out.push((x >> 16u64) as u8);
    out.push((x >> 8u64) as u8);
    out.push(x as u8);
    assert(out@ =~= old(out)@ + enc_u64(x));
}

/// Appends the encoding of a `u32`.
pub fn put_u32(out: &mut Vec<u8>, x: u32)
    ensures
        final(out)@ == old(out)@ + enc_u32(x),
{
    out.push((x >> 24u32) as u8);
    out.push((x >> 16u32) as u8);
    out.push((x >> 8u32) as u8);
    out.push(x as u8);
    assert(out@ =~= old(out)@ + enc_u32(x));
}

/// Appends the encoding of a byte string.
pub fn put_bytes(out: &mut Vec<u8>, v: &Vec<u8>)
    ensures
        final(out)@ == old(out)@ + enc_bytes(v@),
{
    put_u64(out, v.len() as u64);
    let ghost mid = out@;
    let mut i: usize = 0;
    while i < v.len()
        invariant
            0 <= i <= v@.len(),
            out@ == mid + v@.take(i as int),
        decreases v@.len() - i,
    {
        out.push(v[i]);
        i = i + 1;
        assert(out@ =~= mid + v@.take(i as int));
    }
    assert(v@.take(i as int) =~= v@);
    assert(out@ =~= old(out)@ + enc_bytes(v@));
}

/// Appends the encoding of a `(time, weight)` list.
pub fn put_times(out: &mut Vec<u8>, ts: &TimeWeights)
    ensures
        final(out)@ == old(out)@ + enc_times(ts@),
{
    put_u64(out, ts.len() as u64);
    let ghost mid = out@;
    let mut i: usize = 0;
    while i < ts.len()
        invariant
            0 <= i <= ts@.len(),
            out@ == mid + enc_tw_items(ts@.take(i as int)),
        decreases ts@.len() - i,
    {
        proof {
            assert(ts@.take(i + 1).drop_last() =~= ts@.take(i as int));
        }
        put_u64(out, ts[i].0);
        put_u64(out, ts[i].1 as u64);
        i = i + 1;
        assert(out@ =~= mid + enc_tw_items(ts@.take(i as int)));
    }
    assert(ts@.take(i as int) =~= ts@);
    assert(out@ =~= old(out)@ + enc_times(ts@));
}

/// Appends the encoding of a value list.
pub fn put_list(out: &mut Vec<u8>, l: &ValueList)
    ensures
        final(out)@ == old(out)@ + enc_list(list_view(l@)),
{
    let ghost lv = list_view(l@);
    put_u64(out, l.len() as u64);
    let ghost mid = out@;
    let mut i: usize = 0;
    while i < l.len()
        invariant
            0 <= i <= l@.len(),
            lv == list_view(l@),
            out@ == mid + enc_entries(lv.take(i as int)),
        decreases l@.len() - i,
    {
        proof {
            assert(lv.take(i + 1).drop_last() =~= lv.take(i as int));
            assert(lv.take(i + 1).last() == entry_view(l@[i as int]));
        }
        put_bytes(out, &l[i].0);
        put_times(out, &l[i].1);
        i = i + 1;
        assert(out@ =~= mid + enc_entries(lv.take(i as int)));
    }
    assert(lv.take(i as int) =~= lv);
    assert(out@ =~= old(out)@ + enc_list(lv));
}

/// The encoding of a key.
pub fn encode_key(k: u64) -> (r: Vec<u8>)
    ensures
        r@ == enc_u64(k),
{
    let mut buf = ReusableEncodeBuffer::with_capacity(8);
    buf.encode_key(k);
    buf.into_bytes()
}

/// The encoding of a persisted value.
pub fn encode_pv(pv: &PersistedValue) -> (r: Vec<u8>)
    ensures
        r@ == enc_pv(pv_model(*pv)),
        parse_pv(r@, 0) == Some((pv_model(*pv), r@.len() as int)),
{
    if let PersistedValue::Values(l) = pv {
        list_lengths_fit(l);
    }
    let mut buf = ReusableEncodeBuffer::with_capacity(0);
    buf.encode_pv(pv);
    let r = buf.into_bytes();
    proof {
        lemma_pv_round_trip(pv_model(*pv), Seq::empty());
        assert(enc_pv(pv_model(*pv)) + Seq::<u8>::empty() =~= r@);
    }
    r
}

/// The encoding of a merge operation.
pub fn encode_op(op: &MergeOp) -> (r: Vec<u8>)
    ensures
        r@ == enc_op(op_model(*op)),
        parse_op(r@, 0) == Some((op_model(*op), r@.len() as int)),
{
    if let MergeOp::Insert(l) = op {
        list_lengths_fit(l);
    }
    let mut buf = ReusableEncodeBuffer::with_capacity(0);
    buf.encode_op(op);
    let r = buf.into_bytes();
    proof {
        lemma_op_round_trip(op_model(*op), Seq::empty());
        assert(enc_op(op_model(*op)) + Seq::<u8>::empty() =~= r@);
    }
    r
}

/// Reads the `u64` encoded at `p`, with the position after it.
pub fn get_u64(b: &Vec<u8>, p: usize) -> (r: Option<(u64, usize)>)
    ensures
        match r {
            Some((x, q)) => parse_u64(b@, p as int) == Some((x, q as int)),
            None => parse_u64(b@, p as int) is None,
        },
{
    if p > b.len() || b.len() - p < 8 {
        return None;
    }
    let x: u64 = ((b[p] as u64) << 56u64) | ((b[p + 1] as u64) << 48u64) | ((b[p + 2] as u64)
        << 40u64) | ((b[p + 3] as u64) << 32u64) | ((b[p + 4] as u64) << 24u64) | ((b[p + 5] as u64)
        << 16u64) | ((b[p + 6] as u64) << 8u64) | (b[p + 7] as u64);
    Some((x, p + 8))
}

/// Reads the `u32` encoded at `p`, with the position after it.
pub fn get_u32(b: &Vec<u8>, p: usize) -> (r: Option<(u32, usize)>)
    ensures
        match r {
            Some((x, q)) => parse_u32(b@, p as int) == Some((x, q as int)),
            None => parse_u32(b@, p as int) is None,
        },
{
    if p > b.len() || b.len() - p < 4 {
        return None;
    }
    let x: u32 = ((b[p] as u32) << 24u32) | ((b[p + 1] as u32) << 16u32) | ((b[p + 2] as u32) << 8u32)
        | (b[p + 3] as u32);
    Some((x, p + 4))
}

/// Reads the byte string encoded at `p`, with the position after it.
pub fn get_bytes(b: &Vec<u8>, p: usize) -> (r: Option<(Vec<u8>, usize)>)
    ensures
        match r {
            Some((x, q)) => parse_bytes(b@, p as int) == Some((x@, q as int)),
            None => parse_bytes(b@, p as int) is None,
        },
{
    let (n, q) = match get_u64(b, p) {
        Some(x) => x,
        None => return None,
    };
    if ((b.len() - q) as u64) < n {
        return None;
    }
    let end: usize = q + n as usize;
    let mut out: Vec<u8> = Vec::new();
    let mut i: usize = q;
    while i < end
        invariant
            q <= i <= end <= b@.len(),
            out@ == b@.subrange(q as int, i as int),
        decreases end - i,
    {
        out.push(b[i]);
        i = i + 1;
        assert(out@ =~= b@.subrange(q as int, i as int));
    }
    Some((out, end))
}

/// Reads the `(time, weight)` list encoded at `p`, with the position after it.
pub fn get_times(b: &Vec<u8>, p: usize) -> (r: Option<(TimeWeights, usize)>)
    ensures
        match r {
            Some((x, q)) => parse_times(b@, p as int) == Some((x@, q as int)),
            None => parse_times(b@, p as int) is None,
        },
{
    let (n, q) = match get_u64(b, p) {
        Some(x) => x,
        None => return None,
    };
    let mut out: TimeWeights = Vec::new();
    let mut pos: usize = q;
    let mut i: u64 = 0;
    while i < n
        invariant
            0 <= i <= n,
            parse_times(b@, p as int) == parse_tw_items(b@, q as int, n as nat),
            parse_tw_items(b@, q as int, i as nat) == Some((out@, pos as int)),
        decreases n - i,
    {
        let (t, q2) = match get_u64(b, pos) {
            Some(x) => x,
            None => {
                proof {
                    assert(parse_tw_items(b@, q as int, (i + 1) as nat) is None);
                    lemma_tw_items_fail(b@, q as int, (i + 1) as nat, n as nat);
                }
                return None;
            },
        };
        let (w, q3) = match get_u64(b, q2) {
            Some(x) => x,
            None => {
                proof {
                    assert(parse_tw_items(b@, q as int, (i + 1) as nat) is None);
                    lemma_tw_items_fail(b@, q as int, (i + 1) as nat, n as nat);
                }
                return None;
            },
        };
        proof {
            let k = (i + 1) as nat;
            assert((k - 1) as nat == i as nat);
            assert(parse_tw_items(b@, q as int, i as nat) == Some((out@, pos as int)));
            assert(parse_u64(b@, pos as int) == Some((t, q2 as int)));
            assert(parse_u64(b@, q2 as int) == Some((w, q3 as int)));
            assert(parse_tw_items(b@, q as int, k) == Some((out@.push((t, w as i64)), q3 as int)));
        }
        out.push((t, #[verifier::truncate] (w as i64)));
        pos = q3;
        i = i + 1;
    }
    Some((out, pos))
}

/// Reads the value list encoded at `p`, with the position after it.
pub fn get_list(b: &Vec<u8>, p: usize) -> (r: Option<(ValueList, usize)>)
    ensures
        match r {
            Some((x, q)) => parse_list(b@, p as int) == Some((list_view(x@), q as int)),
            None => parse_list(b@, p as int) is None,
        },
{
    let (n, q) = match get_u64(b, p) {
        Some(x) => x,
        None => return None,
    };
    let mut out: ValueList = Vec::new();
    let mut pos: usize = q;
    let mut i: u64 = 0;
    while i < n
        invariant
            0 <= i <= n,
            parse_list(b@, p as int) == parse_entries(b@, q as int, n as nat),
            parse_entries(b@, q as int, i as nat) == Some((list_view(out@), pos as int)),
        decreases n - i,
    {
        let (v, q2) = match get_bytes(b, pos) {
            Some(x) => x,
            None => {
                proof {
                    assert(parse_entries(b@, q as int, (i + 1) as nat) is None);
                    lemma_entries_fail(b@, q as int, (i + 1) as nat, n as nat);
                }
                return None;
            },
        };
        let (ts, q3) = match get_times(b, q2) {
            Some(x) => x,
            None => {
                proof {
                    assert(parse_entries(b@, q as int, (i + 1) as nat) is None);
                    lemma_entries_fail(b@, q as int, (i + 1) as nat, n as nat);
                }
                return None;
            },
        };
        let e = (v, ts);
        proof {
            assert(list_view(out@.push(e)) =~= list_view(out@).push(entry_view(e)));
            assert(parse_entry(b@, pos as int) == Some((entry_view(e), q3 as int)));
            assert(parse_entries(b@, q as int, (i + 1) as nat) == Some((list_view(out@).push(entry_view(e)), q3 as int)));
        }
        out.push(e);
        pos = q3;
        i = i + 1;
    }
    Some((out, pos))
}

/// Decodes a persisted value from the start of `b`, with the number of
/// bytes its encoding takes; `None` when `b` does not start with one.
pub fn decode_pv(b: &Vec<u8>) -> (r: Option<(PersistedValue, usize)>)
    ensures
        match r {
            Some((x, q)) => parse_pv(b@, 0) == Some((pv_model(x), q as int)),
            None => parse_pv(b@, 0) is None,
        },
{
    let (tag, q) = match get_u32(b, 0) {
        Some(x) => x,
        None => return None,
    };
    if tag == 0 {
        match get_list(b, q) {
            Some((l, q2)) => Some((PersistedValue::Values(l), q2)),
            None => None,
        }
    } else if tag == 1 {
        Some((PersistedValue::Tombstone, q))
    } else {
        None
    }
}

/// Decodes a merge operation from the start of `b`, with the number of
/// bytes its encoding takes; `None` when `b` does not start with one.
pub fn decode_op(b: &Vec<u8>) -> (r: Option<(MergeOp, usize)>)
    ensures
        match r {
            Some((x, q)) => parse_op(b@, 0) == Some((op_model(x), q as int)),
            None => parse_op(b@, 0) is None,
        },
{
    let (tag, q) = match get_u32(b, 0) {
        Some(x) => x,
        None => return None,
    };
    if tag == 0 {
        match get_list(b, q) {
            Some((l, q2)) => Some((MergeOp::Insert(l), q2)),
            None => None,
        }
    } else if tag == 1 {
        match get_u64(b, q) {
            Some((t, q2)) => Some((MergeOp::RecedeTo(t), q2)),
            None => None,
        }
    } else {
        None
    }
}

/// Decodes a key from the start of `b`; `None` when `b` is too short.
pub fn decode_key(b: &Vec<u8>) -> (r: Option<u64>)
    ensures
        match r {
            Some(k) => parse_u64(b@, 0) matches Some((x, _)) && x == k,
            None => parse_u64(b@, 0) is None,
        },
{
    match get_u64(b, 0) {
        Some((k, _)) => Some(k),
        None => None,
    }
}

/// A buffer that holds one encoded record, kept around so that encoding
/// record after record reuses its allocation.
pub struct ReusableEncodeBuffer(Vec<u8>);

impl ReusableEncodeBuffer {
    /// The bytes the buffer holds.
    pub closed spec fn spec_bytes(&self) -> Seq<u8> {
        self.0@
    }

    /// An empty buffer with room for `cap` bytes.
    pub fn with_capacity(cap: usize) -> (r: Self)
        ensures
            r.spec_bytes() == Seq::<u8>::empty(),
    {
        ReusableEncodeBuffer(Vec::with_capacity(cap))
    }

    /// Replaces the buffer's contents with the encoding of a key.
    pub fn encode_key(&mut self, k: u64)
        ensures
            final(self).spec_bytes() == enc_u64(k),
    {
        self.0.clear();
        put_u64(&mut self.0, k);
        assert(self.0@ =~= enc_u64(k));
    }

    /// Replaces the buffer's contents with the encoding of a persisted value.
    pub fn encode_pv(&mut self, pv: &PersistedValue)
        ensures
            final(self).spec_bytes() == enc_pv(pv_model(*pv)),
    {
        self.0.clear();
        match pv {
            PersistedValue::Values(l) => {
                put_u32(&mut self.0, 0);
                put_list(&mut self.0, l);
            },
            PersistedValue::Tombstone => {
                put_u32(&mut self.0, 1);
            },
        }
        assert(self.0@ =~= enc_pv(pv_model(*pv)));
    }

    /// Replaces the buffer's contents with the encoding of a merge operation.
    pub fn encode_op(&mut self, op: &MergeOp)
        ensures
            final(self).spec_bytes() == enc_op(op_model(*op)),
    {
        self.0.clear();
        match op {
            MergeOp::Insert(l) => {
                put_u32(&mut self.0, 0);
                put_list(&mut self.0, l);
            },
            MergeOp::RecedeTo(t) => {
                put_u32(&mut self.0, 1);
                put_u64(&mut self.0, *t);
            },
        }
        assert(self.0@ =~= enc_op(op_model(*op)));
    }

    /// The bytes the buffer holds.
    pub fn bytes(&self) -> (r: &Vec<u8>)
        ensures
            r@ == self.spec_bytes(),
    {
        &self.0
    }

    /// The buffer's storage, given up.
    pub fn into_bytes(self) -> (r: Vec<u8>)
        ensures
            r@ == self.spec_bytes(),
    {
        self.0
    }
}

} // verus!
