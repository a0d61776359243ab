//! The matrix of connection costs between adjacent words.
use vstd::prelude::*;

use crate::text_format::{decimal_value, lines_of, parse_decimal, split_bytes, split_lines, split_on};
use crate::word_entry::{i16_le_bytes, le_u16, read_i16_le, read_u16_le, signed16};
use crate::ParsingError;
use vstd::string::StringSliceAdditionalSpecFns;

verus! {

/// Costs of joining a word with right context `right_id` to a following word
/// with left context `left_id`. The table keeps the two header cells of its
/// byte form in front of the cells.
pub struct ConnectionCostMatrix {
    table: Vec<i16>,
    forward_size: u32,
    backward_size: u32,
}

/// The cell of the matrix form that holds cell `k` of the table.
pub open spec fn cell_of(data: Seq<u8>, k: int) -> int {
    signed16(le_u16(data[2 * k], data[2 * k + 1]))
}

/// Byte form of a matrix: the two sizes, then the cells, in 16-bit words.
pub open spec fn is_matrix_form(data: Seq<u8>) -> bool {
    data.len() >= 4 && data.len() == 4 + 2 * le_u16(data[0], data[1]) * le_u16(data[2], data[3])
}

/// A line `right_id left_id cost` of the text form, for sizes `forward` and
/// `backward`: the cell it sets and the cost.
pub open spec fn matrix_row(line: Seq<u8>, forward: int, backward: int) -> Option<(int, int)> {
    let f = split_on(line, 0x20);
    if f.len() != 3 {
        None
    } else {
        match (decimal_value(f[0]), decimal_value(f[1]), decimal_value(f[2])) {
            (Some(r), Some(l), Some(c)) => {
                if 0 <= r < forward && 0 <= l < backward && -0x8000 <= c <= 0x7FFF {
                    Some((l + r * backward, c))
                } else {
                    None
                }
            },
            _ => None,
        }
    }
}

/// The text form of a matrix: a header of two sizes up to `0x7FFF`, then
/// only well-formed lines.
pub open spec fn valid_matrix_def(t: Seq<u8>) -> bool {
    let lines = lines_of(t);
    let h = split_on(lines[0], 0x20);
    &&& lines.len() >= 1
    &&& h.len() == 2
    &&& decimal_value(h[0]) is Some && 0 <= decimal_value(h[0])->0 <= 0x7FFF
    &&& decimal_value(h[1]) is Some && 0 <= decimal_value(h[1])->0 <= 0x7FFF
    &&& forall|q: int| 1 <= q < lines.len() ==> #[trigger] matrix_row(
        lines[q],
        decimal_value(h[0])->0,
        decimal_value(h[1])->0,
    ) is Some
}

/// Cell `k` after the first `n` lines (the header first): the cost of the
/// last line that sets it, or `i16::MAX`.
pub open spec fn cell_after(lines: Seq<Seq<u8>>, backward: int, k: int, n: nat) -> int
    decreases n,
{
    if n <= 1 {
        0x7FFF
    } else {
        let h = split_on(lines[0], 0x20);
        match matrix_row(lines[n - 1], decimal_value(h[0])->0, backward) {
            Some((cell, c)) => if cell == k {
                c
            } else {
                cell_after(lines, backward, k, (n - 1) as nat)
            },
            None => cell_after(lines, backward, k, (n - 1) as nat),
        }
    }
}

impl ConnectionCostMatrix {
    pub closed spec fn forward(&self) -> nat {
        self.forward_size as nat
    }

    pub closed spec fn backward(&self) -> nat {
        self.backward_size as nat
    }

    /// Whether the table has the size its dimensions call for.
    pub fn is_valid(&self) -> (r: bool)
        ensures
            r == self.wf(),
    {
        if self.forward_size > 0xFFFF || self.backward_size > 0xFFFF {
            return false;
        }
        assert(self.forward_size * self.backward_size <= 0xFFFF * 0xFFFF) by (nonlinear_arith)
            requires self.forward_size <= 0xFFFF, self.backward_size <= 0xFFFF;
        if self.table.len() != 2 + (self.forward_size as usize) * (self.backward_size as usize) {
            return false;
        }
        let f = self.forward_size as i32;
        let b = self.backward_size as i32;
        let f_signed: i32 = if f >= 0x8000 { f - 0x10000 } else { f };
        let b_signed: i32 = if b >= 0x8000 { b - 0x10000 } else { b };
        self.table[0] as i32 == f_signed && self.table[1] as i32 == b_signed
    }

    pub fn forward_size(&self) -> (r: u32)
        ensures
            r == self.forward(),
    {
        self.forward_size
    }

    pub fn backward_size(&self) -> (r: u32)
        ensures
            r == self.backward(),
    {
        self.backward_size
    }

    /// Cell `k` of the table, header cells included.
    pub closed spec fn table_cell(&self, k: int) -> int {
        self.table@[k] as int
    }

    pub closed spec fn wf(&self) -> bool {
        &&& self.table@.len() == 2 + self.forward_size * self.backward_size
        &&& self.forward_size <= 0xFFFF
        &&& self.backward_size <= 0xFFFF
        &&& self.table@[0] as int == signed16(self.forward_size as int)
        &&& self.table@[1] as int == signed16(self.backward_size as int)
    }

    /// The cost of `(right_id, left_id)`, read from the table as laid out in
    /// the byte form.
    pub open spec fn cost_spec(&self, right_id: int, left_id: int) -> int {
        self.table_cell(2 + left_id + right_id * self.backward())
    }

    /// Reads the byte form: `forward_size` and `backward_size` (u16 each),
    /// then `forward_size * backward_size` costs (i16 each), all low byte first.
    pub fn from_bytes(data: &[u8]) -> (r: Result<ConnectionCostMatrix, ParsingError>)
        ensures
            r is Ok <==> is_matrix_form(data@),
            r matches Ok(m) ==> {
                &&& m.wf()
                &&& m.forward() == le_u16(data@[0], data@[1])
                &&& m.backward() == le_u16(data@[2], data@[3])
                &&& forall|k: int| 0 <= k < 2 + m.forward() * m.backward()
                    ==> #[trigger] m.table_cell(k) == cell_of(data@, k)
            },
    {
        if data.len() < 4 {
            return Err(ParsingError::ContentError(String::from_str("connection matrix: header is missing")));
        }
        let forward_size = read_u16_le(&data[0..2]) as u32;
        let backward_size = read_u16_le(&data[2..4]) as u32;
        assert(forward_size * backward_size <= 0xFFFF * 0xFFFF) by (nonlinear_arith)
            requires forward_size <= 0xFFFF, backward_size <= 0xFFFF;
        let n: usize = 2 + (forward_size as usize) * (backward_size as usize);
        let len: usize = data.len();
        assert(le_u16(data@[0], data@[1]) == forward_size as int);
        assert(le_u16(data@[2], data@[3]) == backward_size as int);
        assert(2 * (forward_size as int) * (backward_size as int) == 2 * (forward_size as int * backward_size as int)) by (nonlinear_arith);
        assert(is_matrix_form(data@) <==> len == 2 * n);
        if len / 2 != n || len % 2 != 0 {
            return Err(ParsingError::ContentError(String::from_str("connection matrix: wrong size")));
        }
        let mut table: Vec<i16> = Vec::new();
        let mut k: usize = 0;
        while k < n
            invariant
                n * 2 == len,
                len == data@.len(),
                k <= n,
                table@.len() == k,
                forall|j: int| 0 <= j < k ==> #[trigger] table@[j] as int == cell_of(data@, j),
            decreases n - k,
        {
            assert(2 * k + 2 <= data@.len());
            let c = read_i16_le(&data[2 * k..2 * k + 2]);
            table.push(c);
            k = k + 1;
        }
        let m = ConnectionCostMatrix { table, forward_size, backward_size };
        assert(forall|k: int| 0 <= k < 2 + m.forward() * m.backward()
            ==> #[trigger] m.table_cell(k) == cell_of(data@, k));
        assert(m.table@[0] as int == cell_of(data@, 0));
        assert(m.table@[1] as int == cell_of(data@, 1));
        Ok(m)
    }

    /// The byte form of the matrix: the two sizes, then the cells, in 16-bit
    /// words, low byte first.
    pub fn to_bytes(&self) -> (r: Vec<u8>)
        requires
            self.wf(),
        ensures
            r@.len() == 2 * (2 + self.forward() * self.backward()),
            forall|k: int| 0 <= k < 2 + self.forward() * self.backward() ==> #[trigger] cell_of(r@, k) == self.table_cell(k),
            is_matrix_form(r@),
            le_u16(r@[0], r@[1]) == self.forward(),
            le_u16(r@[2], r@[3]) == self.backward(),
    {
        let mut out: Vec<u8> = Vec::new();
        let n = self.table.len();
        let mut k: usize = 0;
        while k < n
            invariant
                n == self.table@.len(),
                k <= n,
                out@.len() == 2 * k,
                forall|j: int| 0 <= j < k ==> #[trigger] cell_of(out@, j) == self.table@[j] as int,
            decreases n - k,
        {
            let b = i16_le_bytes(self.table[k]);
            let ghost before = out@;
            out.push(b[0]);
            out.push(b[1]);
            proof {
                assert(out@[2 * k as int] == b@[0] && out@[2 * k as int + 1] == b@[1]);
                assert(cell_of(out@, k as int) == signed16(le_u16(b@[0], b@[1])));
                assert forall|j: int| 0 <= j < k + 1 implies #[trigger] cell_of(out@, j) == self.table@[j] as int by {
                    if j < k {
                        assert(cell_of(before, j) == self.table@[j] as int);
                        assert(out@[2 * j] == before[2 * j] && out@[2 * j + 1] == before[2 * j + 1]);
                    }
                }
            }
            k = k + 1;
        }
        proof {
            assert(cell_of(out@, 0) == self.table@[0] as int);
            assert(cell_of(out@, 1) == self.table@[1] as int);
            assert(0 <= le_u16(out@[0], out@[1]) < 0x10000);
            assert(0 <= le_u16(out@[2], out@[3]) < 0x10000);
            assert(le_u16(out@[0], out@[1]) == self.forward());
            assert(le_u16(out@[2], out@[3]) == self.backward());
            assert(2 * (2 + self.forward() * self.backward()) == 4 + 2 * self.forward() * self.backward()) by (nonlinear_arith);
        }
        out
    }

    /// Reads the text form of the matrix: a first line with the two sizes,
    /// then lines `right_id left_id cost`. Cells that no line sets cost
    /// `i16::MAX`; where several lines set a cell, the last one counts.
    pub fn from_matrix_def(text: &str) -> (r: Result<ConnectionCostMatrix, ParsingError>)
        ensures
            r is Ok <==> valid_matrix_def(text.spec_bytes()),
            r matches Ok(m) ==> {
                let lines = lines_of(text.spec_bytes());
                let h = split_on(lines[0], 0x20);
                &&& m.wf()
                &&& m.forward() == decimal_value(h[0])->0
                &&& m.backward() == decimal_value(h[1])->0
                &&& forall|k: int| 0 <= k < m.forward() * m.backward()
                    ==> #[trigger] m.table_cell(2 + k) == cell_after(lines, m.backward() as int, k, lines.len() as nat)
            },
    {
        let ghost t = text.spec_bytes();
        let lines = split_lines(text.as_bytes());
        let ghost ls = lines_of(t);
        proof {
            assert(lines@.len() == ls.len());
        }
        if lines.len() == 0 {
            return Err(ParsingError::ContentError(String::from_str("matrix definition: header is missing")));
        }
        proof {
            assert(lines@[0]@ == ls[0]);
        }
        let header = split_bytes(lines[0].as_slice(), 0x20);
        if header.len() != 2 {
            return Err(ParsingError::ContentError(String::from_str("matrix definition: header needs two sizes")));
        }
        proof {
            assert(header@[0]@ == split_on(ls[0], 0x20)[0]);
            assert(header@[1]@ == split_on(ls[0], 0x20)[1]);
        }
        let (forward, backward) = match (parse_decimal(header[0].as_slice()), parse_decimal(header[1].as_slice())) {
            (Some(f), Some(b)) => {
                if f < 0 || f > 0x7FFF || b < 0 || b > 0x7FFF {
                    return Err(ParsingError::ContentError(String::from_str("matrix definition: size out of range")));
                }
                (f as u32, b as u32)
            },
            _ => {
                return Err(ParsingError::ContentError(String::from_str("matrix definition: malformed size")));
            },
        };
        assert(forward * backward <= 0x7FFF * 0x7FFF) by (nonlinear_arith)
            requires forward <= 0x7FFF, backward <= 0x7FFF;
        let cells: usize = (forward as usize) * (backward as usize);
        let mut table: Vec<i16> = Vec::new();
        table.push(forward as i16);
        table.push(backward as i16);
        let mut k: usize = 0;
        while k < cells
            invariant
                cells == forward * backward,
                k <= cells,
                table@.len() == 2 + k,
                table@[0] == forward as i16,
                table@[1] == backward as i16,
                forall|j: int| 0 <= j < k ==> #[trigger] table@[2 + j] == 0x7FFF,
            decreases cells - k,
        {
            table.push(0x7FFF);
            k = k + 1;
        }
        let mut i: usize = 1;
        while i < lines.len()
            invariant
                t == text.spec_bytes(),
                ls == lines_of(t),
                lines@.map_values(|v: Vec<u8>| v@) == ls,
                1 <= i <= ls.len(),
                split_on(ls[0], 0x20).len() == 2,
                decimal_value(split_on(ls[0], 0x20)[0]) == Some(forward as int),
                decimal_value(split_on(ls[0], 0x20)[1]) == Some(backward as int),
                forward <= 0x7FFF,
                backward <= 0x7FFF,
                cells == forward * backward,
                table@.len() == 2 + cells,
                table@[0] == forward as i16,
                table@[1] == backward as i16,
                forall|q: int| 1 <= q < i ==> #[trigger] matrix_row(ls[q], forward as int, backward as int) is Some,
                forall|j: int| 0 <= j < cells ==> #[trigger] table@[2 + j] as int == cell_after(ls, backward as int, j, i as nat),
            decreases ls.len() - i,
        {
            let fields = split_bytes(lines[i].as_slice(), 0x20);
            proof {
                assert(lines@[i as int]@ == ls[i as int]);
            }
            let row = if fields.len() == 3 {
                match (
                    parse_decimal(fields[0].as_slice()),
                    parse_decimal(fields[1].as_slice()),
                    parse_decimal(fields[2].as_slice()),
                ) {
                    (Some(f), Some(b), Some(c)) => {
                        if 0 <= f && f < forward as i64 && 0 <= b && b < backward as i64 && -0x8000 <= c && c <= 0x7FFF {
                            Some((f as usize, b as usize, c as i16))
                        } else {
                            None
                        }
                    },
                    _ => None,
                }
            } else {
                None
            };
            proof {
                let fs = split_on(ls[i as int], 0x20);
                assert(fields@.map_values(|v: Vec<u8>| v@) == fs);
                if fields@.len() == 3 {
                    assert(fields@[0]@ == fs[0] && fields@[1]@ == fs[1] && fields@[2]@ == fs[2]);
                }
            }
            match row {
                Some((f, b, c)) => {
                    assert(f * backward + b < forward * backward) by (nonlinear_arith)
                        requires f < forward, b < backward;
                    assert(f * backward <= forward * backward) by (nonlinear_arith)
                        requires f < forward;
                    assert(forward * backward <= 0x7FFF * 0x7FFF) by (nonlinear_arith)
                        requires forward <= 0x7FFF, backward <= 0x7FFF;
                    let fb: usize = f * (backward as usize);
                    let idx = 2 + b + fb;
                    table.set(idx, c);
                    proof {
                        assert forall|j: int| 0 <= j < cells implies #[trigger] table@[2 + j] as int == cell_after(
                            ls,
                            backward as int,
                            j,
                            (i + 1) as nat,
                        ) by {
                            assert(cell_after(ls, backward as int, j, (i + 1) as nat) == if b + f * backward == j {
                                c as int
                            } else {
                                cell_after(ls, backward as int, j, i as nat)
                            });
                        }
                    }
                },
                None => {
                    proof {
                        assert(matrix_row(ls[i as int], forward as int, backward as int) is None);
                    }
                    return Err(ParsingError::ContentError(String::from_str("matrix definition: malformed line")));
                },
            }
            i = i + 1;
        }
        let m = ConnectionCostMatrix { table, forward_size: forward, backward_size: backward };
        proof {
            assert forall|k: int| 0 <= k < m.forward() * m.backward() implies #[trigger] m.table_cell(2 + k) == cell_after(
                ls,
                m.backward() as int,
                k,
                ls.len() as nat,
            ) by {
                assert(table@[2 + k] as int == cell_after(ls, backward as int, k, ls.len() as nat));
            }
        }
        Ok(m)
    }

    /// The cost of a word with right context `right_id` followed by a word
    /// with left context `left_id`: cell `2 + left_id + right_id * backward_size`.
    pub fn cost(&self, right_id: u32, left_id: u32) -> (r: i32)
        requires
            self.wf(),
            right_id < self.forward(),
            left_id < self.backward(),
        ensures
            r as int == self.cost_spec(right_id as int, left_id as int),
            -0x8000 <= r < 0x8000,
    {
        let r = right_id as usize;
        let b = self.backward_size as usize;
        assert(r * b + left_id < self.forward_size * self.backward_size) by (nonlinear_arith)
            requires r < self.forward_size, left_id < self.backward_size, b == self.backward_size;
        assert(self.forward_size * self.backward_size <= 0xFFFF * 0xFFFF) by (nonlinear_arith)
            requires self.forward_size <= 0xFFFF, self.backward_size <= 0xFFFF;
        let idx: usize = 2 + left_id as usize + r * b;
        self.table[idx] as i32
    }
}

/// The cost of `(right_id, left_id)` in a matrix read from bytes is cell
/// `2 + left_id + right_id * backward_size` of the byte form; it is the same
/// for `(left_id, right_id)` only where those two cells are.
pub proof fn lemma_cost_reads_byte_form(m: ConnectionCostMatrix, data: Seq<u8>, right_id: int, left_id: int)
    requires
        m.wf(),
        forall|k: int| 0 <= k < 2 + m.forward() * m.backward() ==> #[trigger] m.table_cell(k) == cell_of(data, k),
        0 <= right_id < m.forward(),
        0 <= left_id < m.backward(),
    ensures
        m.cost_spec(right_id, left_id) == cell_of(data, 2 + left_id + right_id * m.backward()),
        (left_id < m.forward() && right_id < m.backward()) ==> (m.cost_spec(right_id, left_id) == m.cost_spec(left_id, right_id)
            <==> cell_of(data, 2 + left_id + right_id * m.backward()) == cell_of(data, 2 + right_id + left_id * m.backward())),
{
    assert(right_id * m.backward() + left_id < m.forward() * m.backward()) by (nonlinear_arith)
        requires 0 <= right_id < m.forward(), 0 <= left_id < m.backward();
    if left_id < m.forward() && right_id < m.backward() {
        assert(left_id * m.backward() + right_id < m.forward() * m.backward()) by (nonlinear_arith)
            requires 0 <= left_id < m.forward(), 0 <= right_id < m.backward();
    }
}

/// Writing a matrix to bytes and reading them back gives the same matrix.
pub proof fn lemma_bytes_round_trip(m: ConnectionCostMatrix, data: Seq<u8>, back: ConnectionCostMatrix)
    requires
        m.wf(),
        data.len() == 2 * (2 + m.forward() * m.backward()),
        forall|k: int| 0 <= k < 2 + m.forward() * m.backward() ==> #[trigger] cell_of(data, k) == m.table_cell(k),
        back.wf(),
        back.forward() == le_u16(data[0], data[1]),
        back.backward() == le_u16(data[2], data[3]),
        forall|k: int| 0 <= k < 2 + back.forward() * back.backward() ==> #[trigger] back.table_cell(k) == cell_of(data, k),
    ensures
        back.forward() == m.forward(),
        back.backward() == m.backward(),
        forall|k: int| 0 <= k < 2 + m.forward() * m.backward() ==> #[trigger] back.table_cell(k) == m.table_cell(k),
{
    assert(cell_of(data, 0) == m.table_cell(0));
    assert(cell_of(data, 1) == m.table_cell(1));
    assert(0 <= le_u16(data[0], data[1]) < 0x10000);
    assert(0 <= le_u16(data[2], data[3]) < 0x10000);
}

} // verus!
