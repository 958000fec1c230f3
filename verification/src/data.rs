//! Instructions and the bit-packed program representation: a program is
//! stored as 4-bit instruction codes, two per byte.

use vstd::prelude::*;

verus! {

use vstd::string::StringSliceAdditionalSpecFns;
use vstd::string::StringExecFns;

/// One instruction of the tape-machine language.
#[derive(Clone, Copy, Debug, PartialEq, Eq, Structural)]
pub enum BfInstruction {
    Inc,
    Dec,
    Left,
    Right,
    LoopStart,
    LoopEnd,
    Input,
    Output,
}

/// The fixed ordinal of an instruction; also its on-disk byte value.
pub open spec fn instr_value(i: BfInstruction) -> u8 {
    match i {
        BfInstruction::Inc => 0,
        BfInstruction::Dec => 1,
        BfInstruction::Left => 2,
        BfInstruction::Right => 3,
        BfInstruction::LoopStart => 4,
        BfInstruction::LoopEnd => 5,
        BfInstruction::Input => 6,
        BfInstruction::Output => 7,
    }
}

/// The instruction with a given ordinal below 8.
pub open spec fn instr_of(n: u8) -> BfInstruction {
    if n == 0 {
        BfInstruction::Inc
    } else if n == 1 {
        BfInstruction::Dec
    } else if n == 2 {
        BfInstruction::Left
    } else if n == 3 {
        BfInstruction::Right
    } else if n == 4 {
        BfInstruction::LoopStart
    } else if n == 5 {
        BfInstruction::LoopEnd
    } else if n == 6 {
        BfInstruction::Input
    } else {
        BfInstruction::Output
    }
}

/// The printable symbol of an instruction.
pub open spec fn symbol_char(i: BfInstruction) -> char {
    match i {
        BfInstruction::Inc => '+',
        BfInstruction::Dec => '-',
        BfInstruction::Left => '<',
        BfInstruction::Right => '>',
        BfInstruction::LoopStart => '[',
        BfInstruction::LoopEnd => ']',
        BfInstruction::Input => ',',
        BfInstruction::Output => '.',
    }
}

pub broadcast proof fn lemma_instr_value_of(n: u8)
    requires
        n < 8,
    ensures
        #[trigger] instr_value(instr_of(n)) == n,
{
}

pub broadcast proof fn lemma_instr_of_value(i: BfInstruction)
    ensures
        #[trigger] instr_of(instr_value(i)) == i,
        instr_value(i) < 8,
{
}

impl BfInstruction {
    /// The ordinal of this instruction.
    pub fn to_u8(self) -> (r: u8)
        ensures
            r == instr_value(self),
    {
        match self {
            BfInstruction::Inc => 0,
            BfInstruction::Dec => 1,
            BfInstruction::Left => 2,
            BfInstruction::Right => 3,
            BfInstruction::LoopStart => 4,
            BfInstruction::LoopEnd => 5,
            BfInstruction::Input => 6,
            BfInstruction::Output => 7,
        }
    }

    /// The instruction with ordinal `n`, or `None` when `n` is no ordinal.
    pub fn from_u8(n: u8) -> (r: Option<BfInstruction>)
        ensures
            r == if n < 8 {
                Some(instr_of(n))
            } else {
                None::<BfInstruction>
            },
    {
        match n {
            0 => Some(BfInstruction::Inc),
            1 => Some(BfInstruction::Dec),
            2 => Some(BfInstruction::Left),
            3 => Some(BfInstruction::Right),
            4 => Some(BfInstruction::LoopStart),
            5 => Some(BfInstruction::LoopEnd),
            6 => Some(BfInstruction::Input),
            7 => Some(BfInstruction::Output),
            _ => None,
        }
    }

    /// The printable symbol of this instruction.
    pub fn symbol(self) -> (c: char)
        ensures
            c == symbol_char(self),
    {
        match self {
            BfInstruction::Inc => '+',
            BfInstruction::Dec => '-',
            BfInstruction::Left => '<',
            BfInstruction::Right => '>',
            BfInstruction::LoopStart => '[',
            BfInstruction::LoopEnd => ']',
            BfInstruction::Input => ',',
            BfInstruction::Output => '.',
        }
    }
}

/// The instruction written with a given symbol byte, if any.
pub open spec fn instr_of_byte(b: u8) -> Option<BfInstruction> {
    if b == 43 {
        Some(BfInstruction::Inc)
    } else if b == 45 {
        Some(BfInstruction::Dec)
    } else if b == 60 {
        Some(BfInstruction::Left)
    } else if b == 62 {
        Some(BfInstruction::Right)
    } else if b == 91 {
        Some(BfInstruction::LoopStart)
    } else if b == 93 {
        Some(BfInstruction::LoopEnd)
    } else if b == 44 {
        Some(BfInstruction::Input)
    } else if b == 46 {
        Some(BfInstruction::Output)
    } else {
        None
    }
}

/// The instruction sequence written in a byte string: each symbol byte
/// contributes its instruction, every other byte is ignored.
pub open spec fn instrs_of_bytes(s: Seq<u8>) -> Seq<BfInstruction>
    decreases s.len(),
{
    if s.len() == 0 {
        Seq::empty()
    } else {
        let pre = instrs_of_bytes(s.drop_last());
        match instr_of_byte(s.last()) {
            Some(i) => pre.push(i),
            None => pre,
        }
    }
}

/// A byte string holds at least as many bytes as instructions.
pub proof fn lemma_instrs_of_bytes_len(s: Seq<u8>)
    ensures
        instrs_of_bytes(s).len() <= s.len(),
    decreases s.len(),
{
    if s.len() > 0 {
        lemma_instrs_of_bytes_len(s.drop_last());
    }
}

/// The canonical symbol string of an instruction sequence.
pub open spec fn symbols_of(s: Seq<BfInstruction>) -> Seq<char> {
    Seq::new(s.len(), |i: int| symbol_char(s[i]))
}

/// The one-character string holding an instruction's symbol.
fn symbol_str(i: BfInstruction) -> (r: &'static str)
    ensures
        r@ == seq![symbol_char(i)],
{
    match i {
        BfInstruction::Inc => {
            let r = "+";
            proof {
                reveal_strlit("+");
                assert(r@ =~= seq![symbol_char(i)]);
            }
            r
        },
        BfInstruction::Dec => {
            let r = "-";
            proof {
                reveal_strlit("-");
                assert(r@ =~= seq![symbol_char(i)]);
            }
            r
        },
        BfInstruction::Left => {
            let r = "<";
            proof {
                reveal_strlit("<");
                assert(r@ =~= seq![symbol_char(i)]);
            }
            r
        },
        BfInstruction::Right => {
            let r = ">";
            proof {
                reveal_strlit(">");
                assert(r@ =~= seq![symbol_char(i)]);
            }
            r
        },
        BfInstruction::LoopStart => {
            let r = "[";
            proof {
                reveal_strlit("[");
                assert(r@ =~= seq![symbol_char(i)]);
            }
            r
        },
        BfInstruction::LoopEnd => {
            let r = "]";
            proof {
                reveal_strlit("]");
                assert(r@ =~= seq![symbol_char(i)]);
            }
            r
        },
        BfInstruction::Input => {
            let r = ",";
            proof {
                reveal_strlit(",");
                assert(r@ =~= seq![symbol_char(i)]);
            }
            r
        },
        BfInstruction::Output => {
            let r = ".";
            proof {
                reveal_strlit(".");
                assert(r@ =~= seq![symbol_char(i)]);
            }
            r
        },
    }
}

/// The 4-bit code stored at position `i`: even positions occupy the low
/// nibble of byte `i / 2`, odd positions the high nibble.
pub open spec fn nibble_at(data: Seq<u8>, i: int) -> u8 {
    if i % 2 == 1 {
        (data[i / 2] >> 4) & 0x0f
    } else {
        data[i / 2] & 0x0f
    }
}

/// A program stored as 4-bit instruction codes, two per byte.
#[derive(Debug, PartialEq, Eq)]
pub struct CompressedBF {
    data: Vec<u8>,
    size: usize,
}

impl View for CompressedBF {
    type V = Seq<BfInstruction>;

    closed spec fn view(&self) -> Seq<BfInstruction> {
        Seq::new(self.size as nat, |i: int| instr_of(nibble_at(self.data@, i)))
    }
}

proof fn lemma_set_low(b: u8, v: u8)
    requires
        v < 8,
    ensures
        ((b & 0xf0) | v) & 0x0f == v,
        (((b & 0xf0) | v) >> 4) & 0x0f == (b >> 4) & 0x0f,
{
    assert(((b & 0xf0) | v) & 0x0f == v && (((b & 0xf0) | v) >> 4) & 0x0f == (b >> 4) & 0x0f)
        by (bit_vector)
        requires
            v < 8,
    ;
}

proof fn lemma_set_high(b: u8, v: u8)
    requires
        v < 8,
    ensures
        ((b & 0x0f) | (v << 4)) & 0x0f == b & 0x0f,
        (((b & 0x0f) | (v << 4)) >> 4) & 0x0f == v,
{
    assert(((b & 0x0f) | (v << 4)) & 0x0f == b & 0x0f && (((b & 0x0f) | (v << 4)) >> 4) & 0x0f
        == v) by (bit_vector)
        requires
            v < 8,
    ;
}

impl CompressedBF {
    /// Every nibble of the backing store is a valid instruction code, and
    /// the declared size fits in the store.
    pub closed spec fn wf(&self) -> bool {
        &&& self.size <= 2 * self.data@.len()
        &&& forall|i: int|
            0 <= i < 2 * self.data@.len() ==> #[trigger] nibble_at(self.data@, i) < 8
    }

    /// A packed program of `size` instructions, all `Inc` (code zero), with
    /// room reserved for `capacity` instructions.
    pub fn new(size: usize, capacity: usize) -> (r: CompressedBF)
        requires
            size <= capacity,
        ensures
            r.wf(),
            r@ == Seq::new(size as nat, |i: int| BfInstruction::Inc),
    {
        let required_bytes: usize = capacity / 2 + capacity % 2;
        let data: Vec<u8> = vec![0u8; required_bytes];
        let r = CompressedBF { data, size };
        proof {
            assert(forall|i: int| 0 <= i < data@.len() ==> data@[i] == 0u8);
            assert(0u8 & 0x0f == 0 && (0u8 >> 4) & 0x0f == 0) by (bit_vector);
            assert(forall|i: int|
                0 <= i < 2 * data@.len() ==> #[trigger] nibble_at(data@, i) == 0);
            assert(r@ =~= Seq::new(size as nat, |i: int| BfInstruction::Inc));
        }
        r
    }

    /// The number of instructions stored.
    pub fn size(&self) -> (r: usize)
        ensures
            r == self@.len(),
    {
        self.size
    }

    /// The instruction at `index`, or `None` past the end.
    pub fn get(&self, index: usize) -> (r: Option<BfInstruction>)
        requires
            self.wf(),
        ensures
            r == if index < self@.len() {
                Some(self@[index as int])
            } else {
                None::<BfInstruction>
            },
    {
        if index >= self.size {
            return None;
        }
        let byte_pos: usize = index / 2;
        let is_high: bool = index % 2 == 1;
        let byte: u8 = self.data[byte_pos];
        let value: u8 = if is_high {
            (byte >> 4) & 0x0f
        } else {
            byte & 0x0f
        };
        proof {
            assert(value == nibble_at(self.data@, index as int));
            assert(nibble_at(self.data@, index as int) < 8);
        }
        BfInstruction::from_u8(value)
    }

    /// Overwrite the instruction at `index`, which must be within the
    /// current size.
    pub fn set(&mut self, index: usize, value: BfInstruction)
        requires
            old(self).wf(),
            index < old(self)@.len(),
        ensures
            final(self).wf(),
            final(self)@ == old(self)@.update(index as int, value),
    {
        let byte_pos: usize = index / 2;
        let is_high: bool = index % 2 == 1;
        let val: u8 = value.to_u8();
        proof {
            lemma_instr_of_value(value);
        }
        let byte: u8 = self.data[byte_pos];
        let new_byte: u8 = if is_high {
            (byte & 0x0f) | (val << 4)
        } else {
            (byte & 0xf0) | val
        };
        self.data.set(byte_pos, new_byte);
        self.size = self.size;
        proof {
            if is_high {
                lemma_set_high(byte, val);
            } else {
                lemma_set_low(byte, val);
            }
            assert forall|i: int| 0 <= i < 2 * self.data@.len() implies #[trigger] nibble_at(
                self.data@,
                i,
            ) < 8 by {
                if i / 2 != byte_pos {
                    assert(self.data@[i / 2] == old(self).data@[i / 2]);
                    assert(nibble_at(self.data@, i) == nibble_at(old(self).data@, i));
                } else {
                    if i % 2 == 1 {
                        if is_high {
                            assert(nibble_at(self.data@, i) == val);
                        } else {
                            assert(nibble_at(self.data@, i) == nibble_at(old(self).data@, i));
                        }
                    } else {
                        if is_high {
                            assert(nibble_at(self.data@, i) == nibble_at(old(self).data@, i));
                        } else {
                            assert(nibble_at(self.data@, i) == val);
                        }
                    }
                }
            }
            assert forall|i: int| 0 <= i < self.size && i != index implies instr_of(
                nibble_at(self.data@, i),
            ) == instr_of(nibble_at(old(self).data@, i)) by {
                if i / 2 == byte_pos {
                    assert(i % 2 != index % 2 || i == index);
                }
            }
            assert(nibble_at(self.data@, index as int) == val);
            lemma_instr_of_value(value);
            assert(self@ =~= old(self)@.update(index as int, value));
        }
    }

    /// Append one instruction, growing the backing store when needed.
    pub fn append(&mut self, value: BfInstruction)
        requires
            old(self).wf(),
            old(self)@.len() < usize::MAX,
        ensures
            final(self).wf(),
            final(self)@ == old(self)@.push(value),
    {
        let required_bytes: usize = self.size / 2 + 1;
        proof {
            assert(0u8 & 0x0f == 0 && (0u8 >> 4) & 0x0f == 0) by (bit_vector);
        }
        while self.data.len() < required_bytes
            invariant
                self.wf(),
                self.size == old(self).size,
                required_bytes == self.size / 2 + 1,
                self@ == old(self)@,
            decreases required_bytes - self.data@.len(),
        {
            let ghost pre = self.data@;
            self.data.push(0u8);
            proof {
                assert(0u8 & 0x0f == 0 && (0u8 >> 4) & 0x0f == 0) by (bit_vector);
                assert forall|i: int| 0 <= i < 2 * self.data@.len() implies #[trigger] nibble_at(
                    self.data@,
                    i,
                ) < 8 by {
                    if i / 2 < pre.len() {
                        assert(self.data@[i / 2] == pre[i / 2]);
                        assert(nibble_at(self.data@, i) == nibble_at(pre, i));
                    } else {
                        assert(self.data@[i / 2] == 0u8);
                    }
                }
                assert(self@ =~= old(self)@);
            }
        }
        self.size = self.size + 1;
        proof {
            assert(2 * self.data@.len() >= 2 * required_bytes);
            assert(self.size <= 2 * required_bytes);
        }
        let ghost mid = *self;
        self.set(self.size - 1, value);
        proof {
            assert(mid@ =~= old(self)@.push(instr_of(nibble_at(mid.data@, old(self).size as int))));
            assert(final(self)@ =~= old(self)@.push(value));
        }
    }

    /// The program written in a string: symbol bytes become instructions,
    /// all other bytes are ignored.
    pub fn from_string(p0: &str) -> (r: CompressedBF)
        ensures
            r.wf(),
            r@ == instrs_of_bytes(p0.spec_bytes()),
    {
        let bytes: &[u8] = p0.as_bytes();
        let mut bf = CompressedBF::new(0, 0);
        proof {
            assert(bf@ =~= instrs_of_bytes(bytes@.take(0)));
        }
        let n = bytes.len();
        for i in 0..n
            invariant
                bf.wf(),
                n == bytes@.len(),
                bf@.len() <= i,
                bf@ == instrs_of_bytes(bytes@.take(i as int)),
        {
            let b = bytes[i];
            let instruction_opt: Option<BfInstruction> = match b {
                43 => Some(BfInstruction::Inc),
                45 => Some(BfInstruction::Dec),
                60 => Some(BfInstruction::Left),
                62 => Some(BfInstruction::Right),
                91 => Some(BfInstruction::LoopStart),
                93 => Some(BfInstruction::LoopEnd),
                44 => Some(BfInstruction::Input),
                46 => Some(BfInstruction::Output),
                _ => None,
            };
            proof {
                assert(bytes@.take(i + 1).drop_last() =~= bytes@.take(i as int));
                assert(bytes@.take(i + 1).last() == bytes@[i as int]);
            }
            if let Some(instruction) = instruction_opt {
                bf.append(instruction);
            }
        }
        proof {
            assert(bytes@.take(n as int) =~= bytes@);
        }
        bf
    }

    /// The canonical symbol string of the stored program.
    pub fn to_string(&self) -> (r: String)
        requires
            self.wf(),
        ensures
            r@ == symbols_of(self@),
    {
        let mut s = String::new();
        let n = self.size;
        proof {
            assert(s@ =~= symbols_of(self@.take(0)));
        }
        for i in 0..n
            invariant
                self.wf(),
                n == self@.len(),
                s@ == symbols_of(self@.take(i as int)),
        {
            let instr = self.get(i).unwrap();
            s.append(symbol_str(instr));
            proof {
                assert(s@ =~= symbols_of(self@.take(i + 1)));
            }
        }
        proof {
            assert(self@.take(n as int) =~= self@);
        }
        s
    }

    /// All stored instructions, in order.
    pub fn to_vec(&self) -> (r: Vec<BfInstruction>)
        requires
            self.wf(),
        ensures
            r@ == self@,
    {
        let mut res: Vec<BfInstruction> = Vec::new();
        let n = self.size;
        for i in 0..n
            invariant
                self.wf(),
                n == self@.len(),
                res@ == self@.take(i as int),
        {
            let instr = self.get(i);
            res.push(instr.unwrap());
            proof {
                assert(res@ =~= self@.take(i + 1));
            }
        }
        proof {
            assert(self@.take(n as int) =~= self@);
        }
        res
    }
}

impl Clone for CompressedBF {
    /// A clone stores the same instruction sequence.
    fn clone(&self) -> (r: Self)
        ensures
            r@ == self@,
            self.wf() ==> r.wf(),
    {
        let r = CompressedBF { data: self.data.clone(), size: self.size };
        proof {
            assert(r.data@ =~= self.data@);
            assert(r@ =~= self@);
        }
        r
    }
}

} // verus!
