//! The content stream encoder: an ordered list of drawing operations is
//! rendered to a content-stream byte blob, each operand followed by a space,
//! then the operator token and a line terminator.

use vstd::prelude::*;
use vstd::string::StringSliceAdditionalSpecFns;
use crate::object::Object;
use crate::ser::ser_obj;
use crate::writer::{CountingWrite, Writer};

verus! {

/// One drawing operation: an operator token and its operand objects.
pub struct Operation {
    pub operator: Vec<u8>,
    pub operands: Vec<Object>,
}

impl Operation {
    /// Build an operation from an operator token and its operands.
    pub fn new(operator: &str, operands: Vec<Object>) -> (op: Operation)
        ensures
            op.operator@ == operator.spec_bytes(),
            op.operands == operands,
    {
        Operation { operator: vstd::slice::slice_to_vec(operator.as_bytes()), operands }
    }
}

/// The bytes of the first `n` operands: each operand's serialization
/// followed by a single space.
pub open spec fn operands_bytes(os: Seq<Object>, n: int) -> Seq<u8>
    decreases os, n,
    when n <= os.len()
{
    if n <= 0 {
        Seq::empty()
    } else {
        operands_bytes(os, n - 1) + ser_obj(os[n - 1]) + seq![32u8]
    }
}

/// The bytes of one operation: its operands, the operator token, a line
/// terminator.
pub open spec fn op_bytes(op: Operation) -> Seq<u8> {
    operands_bytes(op.operands@, op.operands@.len() as int) + op.operator@ + seq![10u8]
}

/// The bytes of the first `n` operations.
pub open spec fn content_bytes(ops: Seq<Operation>, n: int) -> Seq<u8>
    decreases ops, n,
    when n <= ops.len()
{
    if n <= 0 {
        Seq::empty()
    } else {
        content_bytes(ops, n - 1) + op_bytes(ops[n - 1])
    }
}

/// An ordered sequence of drawing operations.
pub struct Content {
    pub operations: Vec<Operation>,
}

impl Content {
    /// Encode content operations.
    pub fn encode(&self) -> (r: Vec<u8>)
        ensures
            r@ == content_bytes(self.operations@, self.operations@.len() as int),
    {
        let mut buffer = CountingWrite::new();
        let n = self.operations.len();
        let mut i: usize = 0;
        while i < n
            invariant
                i <= n,
                n == self.operations@.len(),
                buffer.wf(),
                buffer.inner@ == content_bytes(self.operations@, i as int),
            decreases n - i,
        {
            let operation = &self.operations[i];
            let m = operation.operands.len();
            let ghost op_start = buffer.inner@;
            let mut k: usize = 0;
            while k < m
                invariant
                    k <= m,
                    m == operation.operands@.len(),
                    buffer.wf(),
                    buffer.inner@ == op_start + operands_bytes(operation.operands@, k as int),
                decreases m - k,
            {
                let _ = Writer::write_object(&mut buffer, &operation.operands[k], None, None);
                buffer.write_byte(32);
                proof {
                    assert(buffer.inner@ =~= op_start + operands_bytes(
                        operation.operands@,
                        k + 1,
                    ));
                }
                k = k + 1;
            }
            buffer.write_all(operation.operator.as_slice());
            buffer.write_byte(10);
            proof {
                assert(buffer.inner@ =~= content_bytes(self.operations@, i + 1));
            }
            i = i + 1;
        }
        buffer.inner
    }
}

} // verus!
