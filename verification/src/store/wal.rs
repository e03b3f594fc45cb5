//! The write-ahead log format.
//!
//! A put is written as `[1] [key len: u32] [value len: u32] [key] [value]`,
//! a delete as `[2] [key len: u32] [key]`, lengths little-endian.

use vstd::prelude::*;
use crate::store::bytes::{append_bytes, copy_range, get_u32, lemma_u32_le, push_u32, read_u32, u32_le};
use crate::store::{DataFault, StoreError};

verus! {

/// One logged operation.
#[derive(Debug, Clone)]
pub enum LogOp {
    Put(Vec<u8>, Vec<u8>),
    Delete(Vec<u8>),
}

/// A logged operation, over byte sequences.
pub enum OpView {
    Put(Seq<u8>, Seq<u8>),
    Delete(Seq<u8>),
}

impl View for LogOp {
    type V = OpView;

    open spec fn view(&self) -> OpView {
        match self {
            LogOp::Put(k, v) => OpView::Put(k@, v@),
            LogOp::Delete(k) => OpView::Delete(k@),
        }
    }
}

pub open spec fn op_views(ops: Seq<LogOp>) -> Seq<OpView> {
    ops.map_values(|op: LogOp| op@)
}

/// The bytes of one log record. Lengths are stored as `u32`, truncated as
/// `as u32` truncates.
pub open spec fn op_record(op: OpView) -> Seq<u8> {
    match op {
        OpView::Put(k, v) => seq![1u8] + u32_le(k.len() as u32) + u32_le(v.len() as u32) + k + v,
        OpView::Delete(k) => seq![2u8] + u32_le(k.len() as u32) + k,
    }
}

/// The bytes of a log holding the given operations, in order.
pub open spec fn log_bytes(ops: Seq<OpView>) -> Seq<u8>
    decreases ops.len(),
{
    if ops.len() == 0 {
        Seq::empty()
    } else {
        log_bytes(ops.drop_last()) + op_record(ops.last())
    }
}

/// The operations of the log `b` from byte `pos` on: records are read one
/// after the other to the end; a record cut short fails with
/// `UnexpectedEof`, an unknown operation code with `InvalidWalOpCode`.
pub open spec fn parse_log_from(b: Seq<u8>, pos: nat) -> Result<Seq<OpView>, StoreError>
    decreases b.len() - pos,
{
    if pos >= b.len() {
        Ok(Seq::empty())
    } else if b[pos as int] == 1 {
        if b.len() < pos + 9 {
            Err(StoreError::UnexpectedEof)
        } else {
            let kl = read_u32(b, pos + 1int) as nat;
            let vl = read_u32(b, pos + 5int) as nat;
            let next = pos + 9 + kl + vl;
            if b.len() < next {
                Err(StoreError::UnexpectedEof)
            } else {
                let op = OpView::Put(
                    b.subrange(pos + 9int, pos + 9int + kl),
                    b.subrange(pos + 9int + kl, next as int),
                );
                match parse_log_from(b, next) {
                    Ok(rest) => Ok(seq![op] + rest),
                    Err(e) => Err(e),
                }
            }
        }
    } else if b[pos as int] == 2 {
        if b.len() < pos + 5 {
            Err(StoreError::UnexpectedEof)
        } else {
            let kl = read_u32(b, pos + 1int) as nat;
            let next = pos + 5 + kl;
            if b.len() < next {
                Err(StoreError::UnexpectedEof)
            } else {
                let op = OpView::Delete(b.subrange(pos + 5int, next as int));
                match parse_log_from(b, next) {
                    Ok(rest) => Ok(seq![op] + rest),
                    Err(e) => Err(e),
                }
            }
        }
    } else {
        Err(StoreError::InvalidData(DataFault::InvalidWalOpCode))
    }
}

/// The operations of a whole log.
pub open spec fn parse_log(b: Seq<u8>) -> Result<Seq<OpView>, StoreError> {
    parse_log_from(b, 0)
}

/// The record that logs a put of `val` under `key`.
pub fn encode_put(key: &[u8], val: &[u8]) -> (rec: Vec<u8>)
    ensures
        rec@ == op_record(OpView::Put(key@, val@)),
{
    let mut rec: Vec<u8> = Vec::new();
    rec.push(1u8);
    push_u32(&mut rec, key.len() as u32);
    push_u32(&mut rec, val.len() as u32);
    append_bytes(&mut rec, key);
    append_bytes(&mut rec, val);
    assert(rec@ =~= op_record(OpView::Put(key@, val@)));
    rec
}

/// The record that logs a delete of `key`.
pub fn encode_delete(key: &[u8]) -> (rec: Vec<u8>)
    ensures
        rec@ == op_record(OpView::Delete(key@)),
{
    let mut rec: Vec<u8> = Vec::new();
    rec.push(2u8);
    push_u32(&mut rec, key.len() as u32);
    append_bytes(&mut rec, key);
    assert(rec@ =~= op_record(OpView::Delete(key@)));
    rec
}

/// Parse a whole log into its operations.
pub fn decode_log(bytes: &[u8]) -> (res: Result<Vec<LogOp>, StoreError>)
    ensures
        match res {
            Ok(ops) => parse_log(bytes@) == Ok::<Seq<OpView>, StoreError>(op_views(ops@)),
            Err(e) => parse_log(bytes@) == Err::<Seq<OpView>, StoreError>(e),
        },
{
    let ghost b = bytes@;
    let n = bytes.len();
    let mut ops: Vec<LogOp> = Vec::new();
    let mut pos: usize = 0;
    assert(op_views(ops@) =~= Seq::<OpView>::empty());
    while pos < n
        invariant
            n == b.len(),
            b == bytes@,
            pos <= n,
            parse_log(b) == match parse_log_from(b, pos as nat) {
                Ok(rest) => Ok(op_views(ops@) + rest),
                Err(e) => Err(e),
            },
        decreases n - pos,
    {
        let code = bytes[pos];
        if code == 1 {
            if n - pos < 9 {
                return Err(StoreError::UnexpectedEof);
            }
            let kl = get_u32(bytes, pos + 1) as usize;
            let vl = get_u32(bytes, pos + 5) as usize;
            if n - pos - 9 < kl || n - pos - 9 - kl < vl {
                return Err(StoreError::UnexpectedEof);
            }
            let key = copy_range(bytes, pos + 9, pos + 9 + kl);
            let val = copy_range(bytes, pos + 9 + kl, pos + 9 + kl + vl);
            let ghost before = op_views(ops@);
            let ghost op = OpView::Put(key@, val@);
            ops.push(LogOp::Put(key, val));
            assert(op_views(ops@) =~= before.push(op));
            let next = pos + 9 + kl + vl;
            proof {
                assert(parse_log_from(b, pos as nat) == match parse_log_from(b, next as nat) {
                    Ok(rest) => Ok(seq![op] + rest),
                    Err(e) => Err(e),
                });
                match parse_log_from(b, next as nat) {
                    Ok(rest) => {
                        assert(before.push(op) + rest =~= before + (seq![op] + rest));
                    },
                    Err(_) => {},
                }
            }
            pos = next;
        } else if code == 2 {
            if n - pos < 5 {
                return Err(StoreError::UnexpectedEof);
            }
            let kl = get_u32(bytes, pos + 1) as usize;
            if n - pos - 5 < kl {
                return Err(StoreError::UnexpectedEof);
            }
            let key = copy_range(bytes, pos + 5, pos + 5 + kl);
            let ghost before = op_views(ops@);
            let ghost op = OpView::Delete(key@);
            ops.push(LogOp::Delete(key));
            assert(op_views(ops@) =~= before.push(op));
            let next = pos + 5 + kl;
            proof {
                assert(parse_log_from(b, pos as nat) == match parse_log_from(b, next as nat) {
                    Ok(rest) => Ok(seq![op] + rest),
                    Err(e) => Err(e),
                });
                match parse_log_from(b, next as nat) {
                    Ok(rest) => {
                        assert(before.push(op) + rest =~= before + (seq![op] + rest));
                    },
                    Err(_) => {},
                }
            }
            pos = next;
        } else {
            return Err(StoreError::InvalidData(DataFault::InvalidWalOpCode));
        }
    }
    assert(op_views(ops@) + Seq::<OpView>::empty() =~= op_views(ops@));
    Ok(ops)
}

/// An operation whose key and value lengths fit the log's `u32` length fields.
pub open spec fn op_fits(op: OpView) -> bool {
    match op {
        OpView::Put(k, v) => k.len() <= u32::MAX && v.len() <= u32::MAX,
        OpView::Delete(k) => k.len() <= u32::MAX,
    }
}

/// `ops` in front of what a parse gave.
pub open spec fn prefixed(ops: Seq<OpView>, r: Result<Seq<OpView>, StoreError>) -> Result<Seq<OpView>, StoreError> {
    match r {
        Ok(rest) => Ok(ops + rest),
        Err(e) => Err(e),
    }
}

proof fn lemma_parse_shift(a: Seq<u8>, b: Seq<u8>, c: nat)
    ensures
        parse_log_from(a + b, a.len() + c) == parse_log_from(b, c),
    decreases b.len() - c,
{
    let ab = a + b;
    let p: int = a.len() + c as int;
    let ci: int = c as int;
    if c < b.len() {
        assert(ab[p] == b[ci]);
        if b[ci] == 1 && b.len() >= c + 9 {
            assert(ab.subrange(p + 1, p + 5) =~= b.subrange(ci + 1, ci + 5));
            assert(ab.subrange(p + 5, p + 9) =~= b.subrange(ci + 5, ci + 9));
            let kl: int = read_u32(b, ci + 1) as int;
            let vl: int = read_u32(b, ci + 5) as int;
            let next: int = ci + 9 + kl + vl;
            if b.len() >= next {
                assert(ab.subrange(p + 9, p + 9 + kl) =~= b.subrange(ci + 9, ci + 9 + kl));
                assert(ab.subrange(p + 9 + kl, a.len() + next) =~= b.subrange(ci + 9 + kl, next));
                lemma_parse_shift(a, b, next as nat);
            }
        } else if b[ci] == 2 && b.len() >= c + 5 {
            assert(ab.subrange(p + 1, p + 5) =~= b.subrange(ci + 1, ci + 5));
            let kl: int = read_u32(b, ci + 1) as int;
            let next: int = ci + 5 + kl;
            if b.len() >= next {
                assert(ab.subrange(p + 5, a.len() + next) =~= b.subrange(ci + 5, next));
                lemma_parse_shift(a, b, next as nat);
            }
        }
    }
}

proof fn lemma_parse_record(op: OpView, b: Seq<u8>)
    requires
        op_fits(op),
    ensures
        parse_log_from(op_record(op) + b, 0) == prefixed(seq![op], parse_log_from(b, 0)),
{
    let r = op_record(op);
    let rb = r + b;
    lemma_parse_shift(r, b, 0);
    match op {
        OpView::Put(k, v) => {
            lemma_u32_le(k.len() as u32);
            lemma_u32_le(v.len() as u32);
            assert(rb.subrange(1, 5) =~= u32_le(k.len() as u32));
            assert(rb.subrange(5, 9) =~= u32_le(v.len() as u32));
            assert(rb.subrange(9, 9 + k.len() as int) =~= k);
            assert(rb.subrange(9 + k.len() as int, 9 + k.len() as int + v.len() as int) =~= v);
            assert(r.len() == 9 + k.len() + v.len());
        },
        OpView::Delete(k) => {
            lemma_u32_le(k.len() as u32);
            assert(rb.subrange(1, 5) =~= u32_le(k.len() as u32));
            assert(rb.subrange(5, 5 + k.len() as int) =~= k);
            assert(r.len() == 5 + k.len());
        },
    }
    match parse_log_from(b, 0) {
        Ok(rest) => {},
        Err(e) => {},
    }
}

proof fn lemma_parse_log_bytes(ops: Seq<OpView>, b: Seq<u8>)
    requires
        forall|i: int| 0 <= i < ops.len() ==> op_fits(#[trigger] ops[i]),
    ensures
        parse_log_from(log_bytes(ops) + b, 0) == prefixed(ops, parse_log_from(b, 0)),
    decreases ops.len(),
{
    if ops.len() == 0 {
        assert(log_bytes(ops) + b =~= b);
        match parse_log_from(b, 0) {
            Ok(rest) => {
                assert(ops + rest =~= rest);
            },
            Err(e) => {},
        }
    } else {
        let front = ops.drop_last();
        let last = ops.last();
        assert(op_fits(ops[ops.len() - 1]));
        assert forall|i: int| 0 <= i < front.len() implies op_fits(#[trigger] front[i]) by {
            assert(front[i] == ops[i]);
        }
        assert(log_bytes(ops) + b =~= log_bytes(front) + (op_record(last) + b));
        lemma_parse_log_bytes(front, op_record(last) + b);
        lemma_parse_record(last, b);
        match parse_log_from(b, 0) {
            Ok(rest) => {
                assert(front + (seq![last] + rest) =~= ops + rest);
            },
            Err(e) => {},
        }
    }
}

/// Reading back a log gives the operations that were logged, in order, when
/// every key and value length fits the log's `u32` length fields.
pub proof fn law_log_roundtrip(ops: Seq<OpView>)
    requires
        forall|i: int| 0 <= i < ops.len() ==> op_fits(#[trigger] ops[i]),
    ensures
        parse_log(log_bytes(ops)) == Ok::<Seq<OpView>, StoreError>(ops),
{
    lemma_parse_log_bytes(ops, Seq::empty());
    assert(log_bytes(ops) + Seq::<u8>::empty() =~= log_bytes(ops));
    assert(ops + Seq::<OpView>::empty() =~= ops);
}

} // verus!
