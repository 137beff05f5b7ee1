//! The obfuscation layer's cipher: a list of byte operations applied in
//! order when encoding and undone in reverse order when decoding.
use vstd::prelude::*;

verus! {

/// One operation of a cipher spec.
#[derive(Clone, Copy, Debug, PartialEq, Eq)]
pub enum Op {
    Reverse,
    Xor(u8),
    XorPos,
    Add(u8),
    AddPos,
    Sub(u8),
    SubPos,
}

/// Why a cipher spec is refused.
#[derive(Debug, PartialEq, Eq)]
pub enum Error {
    InvalidOp(u8),
    MissingOperand(usize),
    Noop,
}

/// The bits of a byte in reverse order.
pub open spec fn rev8(b: u8) -> u8 {
    ((b & 1u8) << 7u8) | ((b & 2u8) << 5u8) | ((b & 4u8) << 3u8) | ((b & 8u8) << 1u8) | ((b
        & 16u8) >> 1u8) | ((b & 32u8) >> 3u8) | ((b & 64u8) >> 5u8) | ((b & 128u8) >> 7u8)
}

/// `b + x`, wrapping around at 256.
pub open spec fn add_wrap(b: u8, x: u8) -> u8 {
    ((b as int + x as int) % 256) as u8
}

/// `b - x`, wrapping around at 256.
pub open spec fn sub_wrap(b: u8, x: u8) -> u8 {
    ((b as int + 256 - x as int) % 256) as u8
}

/// One operation applied to a byte; `pos` is the byte's position in the
/// stream, truncated to a byte.
pub open spec fn apply_op(b: u8, op: Op, pos: u8) -> u8 {
    match op {
        Op::Reverse => rev8(b),
        Op::Xor(x) => b ^ x,
        Op::XorPos => b ^ pos,
        Op::Add(x) => add_wrap(b, x),
        Op::AddPos => add_wrap(b, pos),
        Op::Sub(x) => sub_wrap(b, x),
        Op::SubPos => sub_wrap(b, pos),
    }
}

/// The operations applied in order, first to last.
pub open spec fn apply_ops(b: u8, ops: Seq<Op>, pos: u8) -> u8
    decreases ops.len(),
{
    if ops.len() == 0 {
        b
    } else {
        apply_ops(apply_op(b, ops[0], pos), ops.drop_first(), pos)
    }
}

/// The operation that undoes an addition; others stay as they are.
pub open spec fn reverse_op(op: Op) -> Op {
    match op {
        Op::Add(x) => Op::Sub(x),
        Op::AddPos => Op::SubPos,
        other => other,
    }
}

/// The operations that undo `ops`: each one reversed, last first.
pub open spec fn reverse_ops(ops: Seq<Op>) -> Seq<Op> {
    Seq::new(ops.len(), |i: int| reverse_op(ops[ops.len() - 1 - i]))
}

/// No subtraction among the operations, as in every parsed spec.
pub open spec fn no_sub(ops: Seq<Op>) -> bool {
    forall|i: int| 0 <= i < ops.len() ==> !(#[trigger] ops[i] is Sub) && !(ops[i] is SubPos)
}

/// The operations a cipher spec lists from byte `pos` on, or the first
/// error in it.
pub open spec fn parse_spec(spec: Seq<u8>, pos: int) -> Result<Seq<Op>, Error>
    decreases spec.len() - pos,
{
    if pos < 0 || pos >= spec.len() {
        Ok(Seq::empty())
    } else {
        let b = spec[pos];
        if b == 1 || b == 3 || b == 5 {
            let op = if b == 1 {
                Op::Reverse
            } else if b == 3 {
                Op::XorPos
            } else {
                Op::AddPos
            };
            match parse_spec(spec, pos + 1) {
                Ok(rest) => Ok(seq![op] + rest),
                Err(e) => Err(e),
            }
        } else if b == 2 || b == 4 {
            if pos + 1 >= spec.len() {
                Err(Error::MissingOperand(pos as usize))
            } else {
                let x = spec[pos + 1];
                let op = if b == 2 {
                    Op::Xor(x)
                } else {
                    Op::Add(x)
                };
                match parse_spec(spec, pos + 2) {
                    Ok(rest) => Ok(seq![op] + rest),
                    Err(e) => Err(e),
                }
            }
        } else {
            Err(Error::InvalidOp(b))
        }
    }
}

/// The position of the byte at index `i` of a buffer that starts at
/// `stream_pos` in the stream, truncated to a byte.
pub open spec fn pos_byte(i: int, stream_pos: int) -> u8 {
    ((i + stream_pos) % 256) as u8
}

/// Every byte of `s` run through `ops` at its position in the stream.
pub open spec fn transform(s: Seq<u8>, ops: Seq<Op>, stream_pos: int) -> Seq<u8> {
    Seq::new(s.len(), |i: int| apply_ops(s[i], ops, pos_byte(i, stream_pos)))
}

/// A cipher: the operations that encode, and the ones that decode.
#[derive(Debug)]
pub struct Cipher {
    encoding_ops: Vec<Op>,
    decoding_ops: Vec<Op>,
}

impl Cipher {
    /// The operations that encode.
    pub closed spec fn encoding(&self) -> Seq<Op> {
        self.encoding_ops@
    }

    /// The operations that decode.
    pub closed spec fn decoding(&self) -> Seq<Op> {
        self.decoding_ops@
    }

    /// Decoding undoes encoding: its operations are those of encoding,
    /// reversed, and encoding holds no subtraction.
    pub open spec fn wf(&self) -> bool {
        &&& self.decoding() == reverse_ops(self.encoding())
        &&& no_sub(self.encoding())
    }

    #[verifier::type_invariant]
    spec fn inv(&self) -> bool {
        self.wf()
    }

    /// Reads a cipher spec: 0x01 reverses the bits, 0x02 xors with the next
    /// byte, 0x03 xors with the position, 0x04 adds the next byte and 0x05
    /// adds the position.
    pub fn new(spec: &[u8]) -> (r: Result<Self, Error>)
        ensures
            match parse_spec(spec@, 0) {
                Ok(ops) => r matches Ok(c) && c.encoding() == ops && c.wf(),
                Err(e) => r == Err::<Self, Error>(e),
            },
    {
        let mut encoding_ops: Vec<Op> = Vec::new();
        let mut op_pos: usize = 0;
        while op_pos < spec.len()
            invariant
                op_pos <= spec@.len(),
                parse_spec(spec@, 0) == match parse_spec(spec@, op_pos as int) {
                    Ok(rest) => Ok(encoding_ops@ + rest),
                    Err(e) => Err::<Seq<Op>, Error>(e),
                },
                no_sub(encoding_ops@),
            decreases spec@.len() - op_pos,
        {
            let op_byte = spec[op_pos];
            let ghost old_ops = encoding_ops@;
            let op;
            if op_byte == 1 {
                op = Op::Reverse;
                op_pos = op_pos + 1;
            } else if op_byte == 2 {
                if op_pos + 1 >= spec.len() {
                    return Err(Error::MissingOperand(op_pos));
                }
                op = Op::Xor(spec[op_pos + 1]);
                op_pos = op_pos + 2;
            } else if op_byte == 3 {
                op = Op::XorPos;
                op_pos = op_pos + 1;
            } else if op_byte == 4 {
                if op_pos + 1 >= spec.len() {
                    return Err(Error::MissingOperand(op_pos));
                }
                op = Op::Add(spec[op_pos + 1]);
                op_pos = op_pos + 2;
            } else if op_byte == 5 {
                op = Op::AddPos;
                op_pos = op_pos + 1;
            } else {
                return Err(Error::InvalidOp(op_byte));
            }
            encoding_ops.push(op);
            proof {
                assert(encoding_ops@ == old_ops + seq![op]);
                match parse_spec(spec@, op_pos as int) {
                    Ok(rest) => {
                        assert(old_ops + (seq![op] + rest) =~= encoding_ops@ + rest);
                    },
                    Err(e) => {},
                }
                assert forall|i: int| 0 <= i < encoding_ops@.len() implies !(
                #[trigger] encoding_ops@[i] is Sub) && !(encoding_ops@[i] is SubPos) by {
                    if i < old_ops.len() {
                        assert(encoding_ops@[i] == old_ops[i]);
                    }
                }
            }
        }
        assert(encoding_ops@ + Seq::<Op>::empty() =~= encoding_ops@);
        let decoding_ops = Self::reverse(&encoding_ops);
        Ok(Self { encoding_ops, decoding_ops })
    }

    /// Encodes `bytes` in place; the first of them stands at `stream_pos` in
    /// the stream.
    pub fn encode(&self, bytes: &mut [u8], stream_pos: usize)
        requires
            stream_pos + old(bytes)@.len() <= usize::MAX + 1,
        ensures
            final(bytes)@ == transform(old(bytes)@, self.encoding(), stream_pos as int),
    {
        Self::apply_all(bytes, &self.encoding_ops, stream_pos);
    }

    /// Decodes `bytes` in place; the first of them stands at `stream_pos` in
    /// the stream.
    pub fn decode(&self, bytes: &mut [u8], stream_pos: usize)
        requires
            stream_pos + old(bytes)@.len() <= usize::MAX + 1,
        ensures
            final(bytes)@ == transform(old(bytes)@, self.decoding(), stream_pos as int),
    {
        Self::apply_all(bytes, &self.decoding_ops, stream_pos);
    }

    fn apply_all(bytes: &mut [u8], ops: &Vec<Op>, stream_pos: usize)
        requires
            stream_pos + old(bytes)@.len() <= usize::MAX + 1,
        ensures
            final(bytes)@ == transform(old(bytes)@, ops@, stream_pos as int),
    {
        let n = bytes.len();
        let mut pos: usize = 0;
        while pos < n
            invariant
                n == bytes@.len(),
                n == old(bytes)@.len(),
                pos <= n,
                stream_pos + n <= usize::MAX + 1,
                forall|i: int|
                    0 <= i < pos ==> bytes@[i] == apply_ops(
                        old(bytes)@[i],
                        ops@,
                        pos_byte(i, stream_pos as int),
                    ),
                forall|i: int| pos <= i < n ==> bytes@[i] == old(bytes)@[i],
            decreases n - pos,
        {
            let b = Self::apply(bytes[pos], ops.as_slice(), pos + stream_pos);
            bytes[pos] = b;
            pos = pos + 1;
        }
        assert(bytes@ =~= transform(old(bytes)@, ops@, stream_pos as int));
    }

    /// True when encoding leaves every byte below 255 unchanged at stream
    /// position 1.
    pub fn is_noop(&self) -> (r: bool)
        ensures
            r == forall|b: u8| b < 255 ==> #[trigger] apply_ops(b, self.encoding(), 1u8) == b,
    {
        let mut byte: u8 = 0;
        while byte < 255
            invariant
                forall|b: u8| b < byte ==> #[trigger] apply_ops(b, self.encoding(), 1u8) == b,
            decreases 255 - byte,
        {
            let out = Self::apply(byte, self.encoding_ops.as_slice(), 1);
            assert((1usize % 256) as u8 == 1u8);
            if out != byte {
                assert(apply_ops(byte, self.encoding(), 1u8) != byte);
                return false;
            }
            byte = byte + 1;
        }
        true
    }

    /// The operations that undo `ops`.
    fn reverse(ops: &Vec<Op>) -> (r: Vec<Op>)
        ensures
            r@ == reverse_ops(ops@),
    {
        let mut r: Vec<Op> = Vec::new();
        let n = ops.len();
        let mut k: usize = n;
        while k > 0
            invariant
                k <= n,
                n == ops@.len(),
                r@.len() == n - k,
                forall|i: int| 0 <= i < n - k ==> r@[i] == reverse_op(ops@[n - 1 - i]),
            decreases k,
        {
            k = k - 1;
            let op = match ops[k] {
                Op::Add(other) => Op::Sub(other),
                Op::AddPos => Op::SubPos,
                other_op => other_op,
            };
            r.push(op);
        }
        assert(r@ =~= reverse_ops(ops@));
        r
    }

    /// Runs one byte through `ops`; `stream_pos` is its position in the
    /// stream.
    fn apply(byte: u8, ops: &[Op], stream_pos: usize) -> (r: u8)
        ensures
            r == apply_ops(byte, ops@, (stream_pos % 256) as u8),
    {
        let pos = (stream_pos % 256) as u8;
        let mut cur = byte;
        let mut i: usize = 0;
        assert(ops@.subrange(0, ops@.len() as int) =~= ops@);
        while i < ops.len()
            invariant
                i <= ops@.len(),
                pos == (stream_pos % 256) as u8,
                apply_ops(byte, ops@, pos) == apply_ops(
                    cur,
                    ops@.subrange(i as int, ops@.len() as int),
                    pos,
                ),
            decreases ops@.len() - i,
        {
            let ghost rest = ops@.subrange(i as int, ops@.len() as int);
            assert(rest.drop_first() =~= ops@.subrange(i + 1, ops@.len() as int));
            cur = apply_one(cur, ops[i], pos);
            i = i + 1;
        }
        cur
    }
}

/// The bits of a byte in reverse order.
fn reverse_bits(b: u8) -> (r: u8)
    ensures
        r == rev8(b),
{
    ((b & 1u8) << 7u8) | ((b & 2u8) << 5u8) | ((b & 4u8) << 3u8) | ((b & 8u8) << 1u8) | ((b
        & 16u8) >> 1u8) | ((b & 32u8) >> 3u8) | ((b & 64u8) >> 5u8) | ((b & 128u8) >> 7u8)
}

/// One operation applied to a byte at stream position `pos`.
fn apply_one(b: u8, op: Op, pos: u8) -> (r: u8)
    ensures
        r == apply_op(b, op, pos),
{
    match op {
        Op::Reverse => reverse_bits(b),
        Op::Xor(other) => b ^ other,
        Op::XorPos => b ^ pos,
        Op::Add(other) => ((b as u16 + other as u16) % 256) as u8,
        Op::AddPos => ((b as u16 + pos as u16) % 256) as u8,
        Op::Sub(other) => ((b as u16 + 256 - other as u16) % 256) as u8,
        Op::SubPos => ((b as u16 + 256 - pos as u16) % 256) as u8,
    }
}

// ---------------------------------------------------------------------------
// Decoding undoes encoding
// ---------------------------------------------------------------------------

proof fn lemma_rev8_involution(b: u8)
    ensures
        rev8(rev8(b)) == b,
{
    assert(rev8(rev8(b)) == b) by (bit_vector);
}

/// An operation followed by its reverse leaves the byte unchanged.
proof fn lemma_op_inverse(b: u8, op: Op, pos: u8)
    requires
        !(op is Sub),
        !(op is SubPos),
    ensures
        apply_op(apply_op(b, op, pos), reverse_op(op), pos) == b,
{
    match op {
        Op::Reverse => lemma_rev8_involution(b),
        Op::Xor(x) => {
            assert((b ^ x) ^ x == b) by (bit_vector);
        },
        Op::XorPos => {
            assert((b ^ pos) ^ pos == b) by (bit_vector);
        },
        _ => {},
    }
}

/// An operation's reverse followed by the operation leaves the byte
/// unchanged.
proof fn lemma_op_inverse_back(b: u8, op: Op, pos: u8)
    requires
        !(op is Sub),
        !(op is SubPos),
    ensures
        apply_op(apply_op(b, reverse_op(op), pos), op, pos) == b,
{
    match op {
        Op::Reverse => lemma_rev8_involution(b),
        Op::Xor(x) => {
            assert((b ^ x) ^ x == b) by (bit_vector);
        },
        Op::XorPos => {
            assert((b ^ pos) ^ pos == b) by (bit_vector);
        },
        _ => {},
    }
}

proof fn lemma_apply_ops_push(b: u8, ops: Seq<Op>, op: Op, pos: u8)
    ensures
        apply_ops(b, ops.push(op), pos) == apply_op(apply_ops(b, ops, pos), op, pos),
    decreases ops.len(),
{
    if ops.len() > 0 {
        assert(ops.push(op).drop_first() =~= ops.drop_first().push(op));
        assert(ops.push(op)[0] == ops[0]);
        lemma_apply_ops_push(apply_op(b, ops[0], pos), ops.drop_first(), op, pos);
    } else {
        assert(ops.push(op).drop_first() =~= Seq::<Op>::empty());
        assert(ops.push(op)[0] == op);
        assert(apply_ops(apply_op(b, op, pos), Seq::<Op>::empty(), pos) == apply_op(b, op, pos));
    }
}

/// Running a byte through operations without subtraction and then through
/// their reverse gives back the byte.
pub proof fn lemma_reverse_ops_undo(b: u8, ops: Seq<Op>, pos: u8)
    requires
        no_sub(ops),
    ensures
        apply_ops(apply_ops(b, ops, pos), reverse_ops(ops), pos) == b,
    decreases ops.len(),
{
    if ops.len() > 0 {
        let op = ops[0];
        let rest = ops.drop_first();
        assert(no_sub(rest)) by {
            assert forall|i: int| 0 <= i < rest.len() implies !(#[trigger] rest[i] is Sub) && !(
            rest[i] is SubPos) by {
                assert(rest[i] == ops[i + 1]);
            }
        }
        assert(!(ops[0] is Sub) && !(ops[0] is SubPos));
        let b1 = apply_op(b, op, pos);
        lemma_reverse_ops_undo(b1, rest, pos);
        assert(reverse_ops(ops) =~= reverse_ops(rest).push(reverse_op(op)));
        lemma_apply_ops_push(apply_ops(b1, rest, pos), reverse_ops(rest), reverse_op(op), pos);
        lemma_op_inverse(b, op, pos);
    }
}

/// Decoding bytes that a cipher encoded, from the same stream position,
/// gives back the bytes.
pub proof fn lemma_decode_encode(c: Cipher, s: Seq<u8>, stream_pos: int)
    requires
        c.wf(),
    ensures
        transform(transform(s, c.encoding(), stream_pos), c.decoding(), stream_pos) == s,
{
    let e = transform(s, c.encoding(), stream_pos);
    let d = transform(e, c.decoding(), stream_pos);
    assert forall|i: int| 0 <= i < s.len() implies d[i] == s[i] by {
        lemma_reverse_ops_undo(s[i], c.encoding(), pos_byte(i, stream_pos));
    }
    assert(d =~= s);
}

/// Reading a spec from `pre.len() + k` in `pre + rest` reads what reading
/// `rest` from `k` does, where that reads without error.
proof fn lemma_parse_shift(pre: Seq<u8>, rest: Seq<u8>, k: int)
    requires
        0 <= k,
        parse_spec(rest, k) is Ok,
    ensures
        parse_spec(pre + rest, pre.len() + k) == parse_spec(rest, k),
    decreases rest.len() - k,
{
    let all = pre + rest;
    let p = pre.len() + k;
    if k < rest.len() {
        assert(all[p] == rest[k]);
        let b = rest[k];
        if b == 1 || b == 3 || b == 5 {
            lemma_parse_shift(pre, rest, k + 1);
        } else if b == 2 || b == 4 {
            assert(all[p + 1] == rest[k + 1]);
            lemma_parse_shift(pre, rest, k + 2);
        }
    }
}

/// The bits of a byte reversed: bit `i` of the result is bit `7 - i` of
/// the byte.
proof fn lemma_rev8_bits(b: u8)
    ensures
        forall|i: u8| i < 8 ==> #[trigger] ((rev8(b) >> i) & 1u8) == ((b >> ((7 - i) as u8)) & 1u8),
{
    assert(forall|i: u8| i < 8 ==> #[trigger] ((rev8(b) >> i) & 1u8) == ((b >> ((7 - i) as u8)) & 1u8)) by (bit_vector);
}

/// The codes of a cipher spec: a spec that starts with a code reads as the
/// operation the code names, then the operations of the rest. The
/// operation of 0x01 reverses the bits of a byte, 0x02 x xors it with x,
/// 0x03 xors it with its stream position, 0x04 x adds x and 0x05 adds its
/// stream position, both wrapping at 256.
pub proof fn lemma_spec_codes(rest: Seq<u8>, x: u8, b: u8, pos: u8)
    requires
        parse_spec(rest, 0) is Ok,
    ensures
        parse_spec(seq![1u8] + rest, 0) matches Ok(o) && o.len() > 0 && o.drop_first() == parse_spec(rest, 0)->Ok_0
            && forall|i: u8| i < 8 ==> #[trigger] ((apply_op(b, o[0], pos) >> i) & 1u8) == ((b >> ((7 - i) as u8)) & 1u8),
        parse_spec(seq![2u8, x] + rest, 0) matches Ok(o) && o.len() > 0 && o.drop_first() == parse_spec(rest, 0)->Ok_0
            && apply_op(b, o[0], pos) == b ^ x,
        parse_spec(seq![3u8] + rest, 0) matches Ok(o) && o.len() > 0 && o.drop_first() == parse_spec(rest, 0)->Ok_0
            && apply_op(b, o[0], pos) == b ^ pos,
        parse_spec(seq![4u8, x] + rest, 0) matches Ok(o) && o.len() > 0 && o.drop_first() == parse_spec(rest, 0)->Ok_0
            && apply_op(b, o[0], pos) as int == (b as int + x as int) % 256,
        parse_spec(seq![5u8] + rest, 0) matches Ok(o) && o.len() > 0 && o.drop_first() == parse_spec(rest, 0)->Ok_0
            && apply_op(b, o[0], pos) as int == (b as int + pos as int) % 256,
{
    let ops = parse_spec(rest, 0)->Ok_0;
    lemma_parse_shift(seq![1u8], rest, 0);
    lemma_parse_shift(seq![2u8, x], rest, 0);
    lemma_parse_shift(seq![3u8], rest, 0);
    lemma_parse_shift(seq![4u8, x], rest, 0);
    lemma_parse_shift(seq![5u8], rest, 0);
    assert((seq![1u8] + rest)[0] == 1u8);
    assert((seq![2u8, x] + rest)[0] == 2u8);
    assert((seq![2u8, x] + rest)[1] == x);
    assert((seq![3u8] + rest)[0] == 3u8);
    assert((seq![4u8, x] + rest)[0] == 4u8);
    assert((seq![4u8, x] + rest)[1] == x);
    assert((seq![5u8] + rest)[0] == 5u8);
    assert((seq![Op::Reverse] + ops).drop_first() =~= ops);
    assert((seq![Op::Xor(x)] + ops).drop_first() =~= ops);
    assert((seq![Op::XorPos] + ops).drop_first() =~= ops);
    assert((seq![Op::Add(x)] + ops).drop_first() =~= ops);
    assert((seq![Op::AddPos] + ops).drop_first() =~= ops);
    lemma_rev8_bits(b);
}

/// Encoding with the cipher of spec [0x03] xors each byte with its
/// position in the stream, kept to its low eight bits.
pub proof fn lemma_xorpos_encoding(c: Cipher, s: Seq<u8>, stream_pos: int)
    requires
        parse_spec(seq![3u8], 0) matches Ok(ops) && c.encoding() == ops,
    ensures
        forall|i: int| 0 <= i < s.len() ==> #[trigger] transform(s, c.encoding(), stream_pos)[i] == s[i] ^ (((i
            + stream_pos) % 256) as u8),
{
    lemma_spec_codes(Seq::<u8>::empty(), 0, 0, 0);
    assert(seq![3u8] + Seq::<u8>::empty() =~= seq![3u8]);
    let o = c.encoding();
    assert(o.len() == 1);
    assert forall|i: int| 0 <= i < s.len() implies #[trigger] transform(s, c.encoding(), stream_pos)[i] == s[i] ^ (((i
        + stream_pos) % 256) as u8) by {
        let pos = pos_byte(i, stream_pos);
        lemma_spec_codes(Seq::<u8>::empty(), 0, s[i], pos);
        assert(o.drop_first() =~= Seq::<Op>::empty());
        assert(apply_ops(s[i], o, pos) == apply_ops(apply_op(s[i], o[0], pos), o.drop_first(), pos));
    }
}

/// Running a byte through the reverse of operations without subtraction
/// and then through the operations gives back the byte.
pub proof fn lemma_reverse_ops_redo(b: u8, ops: Seq<Op>, pos: u8)
    requires
        no_sub(ops),
    ensures
        apply_ops(apply_ops(b, reverse_ops(ops), pos), ops, pos) == b,
    decreases ops.len(),
{
    if ops.len() > 0 {
        let op = ops[0];
        let rest = ops.drop_first();
        assert(no_sub(rest)) by {
            assert forall|i: int| 0 <= i < rest.len() implies !(#[trigger] rest[i] is Sub) && !(
            rest[i] is SubPos) by {
                assert(rest[i] == ops[i + 1]);
            }
        }
        assert(!(ops[0] is Sub) && !(ops[0] is SubPos));
        assert(reverse_ops(ops) =~= reverse_ops(rest).push(reverse_op(op)));
        let mid = apply_ops(b, reverse_ops(rest), pos);
        lemma_apply_ops_push(b, reverse_ops(rest), reverse_op(op), pos);
        lemma_op_inverse_back(mid, op, pos);
        lemma_reverse_ops_redo(b, rest, pos);
    }
}

/// Encoding bytes that a cipher decoded, from the same stream position,
/// gives back the bytes.
pub proof fn lemma_encode_decode(c: Cipher, s: Seq<u8>, stream_pos: int)
    requires
        c.wf(),
    ensures
        transform(transform(s, c.decoding(), stream_pos), c.encoding(), stream_pos) == s,
{
    let d = transform(s, c.decoding(), stream_pos);
    let e = transform(d, c.encoding(), stream_pos);
    assert forall|i: int| 0 <= i < s.len() implies e[i] == s[i] by {
        lemma_reverse_ops_redo(s[i], c.encoding(), pos_byte(i, stream_pos));
    }
    assert(e =~= s);
}

} // verus!
