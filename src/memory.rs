use vstd::prelude::*;
use vstd::arithmetic::div_mod::{
    lemma_add_mod_noop_right, lemma_mod_add_multiples_vanish, lemma_mod_sub_multiples_vanish,
    lemma_small_mod, lemma_sub_mod_noop_right,
};

verus! {

/// The abstract state of a tape: its cells and the cursor.
pub struct Tape {
    pub cells: Seq<u8>,
    pub cursor: int,
}

/// The cell reached from `cursor` by moving `offset` cells on a circular
/// tape of `len` cells.
pub open spec fn wrap_index(cursor: int, offset: int, len: int) -> int {
    (cursor + offset) % len
}

/// Eight-bit wrapping addition.
pub open spec fn wrap_add(a: u8, n: u8) -> u8 {
    ((a + n) % 256) as u8
}

/// The low eight bits of a character's code.
pub open spec fn low_byte(c: char) -> u8 {
    (c as u32 % 256) as u8
}

impl Tape {
    pub open spec fn wf(self) -> bool {
        &&& self.cells.len() > 0
        &&& 0 <= self.cursor < self.cells.len()
    }

    /// A fresh tape of `size` zero cells with the cursor on the first one.
    pub open spec fn blank(size: nat) -> Tape {
        Tape { cells: Seq::new(size, |i: int| 0u8), cursor: 0 }
    }

    pub open spec fn current(self) -> u8 {
        self.cells[self.cursor]
    }

    pub open spec fn moved(self, offset: int) -> Tape {
        Tape { cursor: wrap_index(self.cursor, offset, self.cells.len() as int), ..self }
    }

    pub open spec fn added_at(self, n: u8, offset: int) -> Tape {
        let i = wrap_index(self.cursor, offset, self.cells.len() as int);
        Tape { cells: self.cells.update(i, wrap_add(self.cells[i], n)), ..self }
    }

    pub open spec fn stored(self, v: u8) -> Tape {
        Tape { cells: self.cells.update(self.cursor, v), ..self }
    }
}

/// A fixed-length circular byte tape with a cursor.
#[derive(Debug)]
pub struct Memory {
    data: Vec<u8>,
    index: usize,
}

impl View for Memory {
    type V = Tape;

    closed spec fn view(&self) -> Tape {
        Tape { cells: self.data@, cursor: self.index as int }
    }
}

impl Memory {
    /// A tape of `size` zero cells; a zero-length tape is not a valid configuration.
    pub fn new(size: usize) -> (r: Self)
        requires
            size > 0,
        ensures
            r@ == Tape::blank(size as nat),
            r@.wf(),
    {
        let r = Self { data: vec![0; size], index: 0 };
        assert(r@.cells =~= Tape::blank(size as nat).cells);
        r
    }

    pub fn move_index(&mut self, offset: isize)
        requires
            old(self)@.wf(),
        ensures
            final(self)@ == old(self)@.moved(offset as int),
            final(self)@.wf(),
    {
        self.index = self.offset_index(offset);
    }

    pub fn add(&mut self, n: u8)
        requires
            old(self)@.wf(),
        ensures
            final(self)@ == old(self)@.added_at(n, 0),
            final(self)@.wf(),
    {
        let i = self.index;
        proof {
            lemma_small_mod(i as nat, self.data.len() as nat);
        }
        let v = self.data[i].wrapping_add(n);
        self.data.set(i, v);
    }

    pub fn add_with_offset(&mut self, n: u8, offset: isize)
        requires
            old(self)@.wf(),
        ensures
            final(self)@ == old(self)@.added_at(n, offset as int),
            final(self)@.wf(),
    {
        let i = self.offset_index(offset);
        let v = self.data[i].wrapping_add(n);
        self.data.set(i, v);
    }

    pub fn zero(&mut self)
        requires
            old(self)@.wf(),
        ensures
            final(self)@ == old(self)@.stored(0),
            final(self)@.wf(),
    {
        let i = self.index;
        self.data.set(i, 0);
    }

    pub fn is_zero(&self) -> (r: bool)
        requires
            self@.wf(),
        ensures
            r == (self@.current() == 0),
    {
        self.data[self.index] == 0
    }

    /// The current cell read as a character code.
    pub fn get_char(&self) -> (c: char)
        requires
            self@.wf(),
        ensures
            c as u32 == self@.current() as u32,
    {
        self.data[self.index] as char
    }

    /// Stores the low eight bits of the character's code in the current cell.
    pub fn set_char(&mut self, c: char)
        requires
            old(self)@.wf(),
        ensures
            final(self)@ == old(self)@.stored(low_byte(c)),
            final(self)@.wf(),
    {
        let i = self.index;
        let b = (c as u32 % 256) as u8;
        self.data.set(i, b);
    }

    fn offset_index(&self, offset: isize) -> (r: usize)
        requires
            self@.wf(),
        ensures
            r == wrap_index(self@.cursor, offset as int, self@.cells.len() as int),
            r < self@.cells.len(),
    {
        let len = self.data.len();
        let ghost c = self.index as int;
        if offset >= 0 {
            let o = (offset as usize) % len;
            proof {
                lemma_add_mod_noop_right(c, offset as int, len as int);
            }
            if self.index >= len - o {
                proof {
                    lemma_mod_sub_multiples_vanish(c + o, len as int);
                    lemma_small_mod((c + o - len) as nat, len as nat);
                }
                self.index - (len - o)
            } else {
                proof {
                    lemma_small_mod((c + o) as nat, len as nat);
                }
                self.index + o
            }
        } else {
            let o = ((-(offset as i128)) as usize) % len;
            proof {
                lemma_sub_mod_noop_right(c, -(offset as int), len as int);
            }
            if self.index >= o {
                proof {
                    lemma_small_mod((c - o) as nat, len as nat);
                }
                self.index - o
            } else {
                proof {
                    lemma_mod_add_multiples_vanish(c - o, len as int);
                    lemma_small_mod((c - o + len) as nat, len as nat);
                }
                self.index + (len - o)
            }
        }
    }
}

} // verus!
