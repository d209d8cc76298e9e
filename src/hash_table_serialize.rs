//! Bit-packed binary codec for a table that maps byte symbols to prefix codes.
//!
//! Layout of a serialized table:
//! `[count: u16 big-endian] count x [symbol: u8, bit_length: u8, packed: u8, packed: u8]`,
//! where the code's bit `i` sits in packed byte `i / 8` at bit position `7 - i % 8`.
use std::collections::HashMap;
use vstd::prelude::*;

verus! {

/// Bytes taken by the record count.
pub const HEADER_SIZE: usize = 2;

/// Bytes taken by one record.
pub const ELEMENT_SIZE: usize = 4;

/// Longest code that fits in the two packed bytes of a record.
pub const MAX_CODE_BITS: usize = 16;

/// Whether bit `pos` (0 is the least significant) of `b` is set.
pub open spec fn bit_of(b: u8, pos: u8) -> bool {
    (b >> pos) & 1u8 == 1u8
}

/// Bit `i` of the 16-bit field made of `hi` then `lo`, counted from the most significant.
pub open spec fn packed_bit(hi: u8, lo: u8, i: int) -> bool {
    if i < 8 {
        bit_of(hi, (7 - i) as u8)
    } else {
        bit_of(lo, (15 - i) as u8)
    }
}

/// A code is 1 to 16 characters, each `'0'` or `'1'`.
pub open spec fn is_code(s: Seq<char>) -> bool {
    &&& 1 <= s.len() <= 16
    &&& forall|i: int| 0 <= i < s.len() ==> #[trigger] s[i] == '0' || s[i] == '1'
}

/// `hi` and `lo` hold `code` most significant bit first, and zeros after its end.
pub open spec fn packs(hi: u8, lo: u8, code: Seq<char>) -> bool {
    forall|i: int| 0 <= i < 16 ==> #[trigger] packed_bit(hi, lo, i) == (i < code.len() && code[i] == '1')
}

/// The first `len` bits of the packed field, as characters.
pub open spec fn unpack(hi: u8, lo: u8, len: nat) -> Seq<char> {
    Seq::new(len, |i: int| if packed_bit(hi, lo, i) { '1' } else { '0' })
}

proof fn lemma_zero_bits()
    ensures
        forall|pos: u8| pos < 8 ==> !#[trigger] bit_of(0u8, pos),
{
    assert(forall|pos: u8| pos < 8 ==> (0u8 >> pos) & 1u8 != 1u8) by (bit_vector);
}

/// `b` with bit `pos` set.
fn set_bit(b: u8, pos: u8) -> (r: u8)
    requires
        pos < 8,
    ensures
        forall|q: u8| q < 8 ==> #[trigger] bit_of(r, q) == (q == pos || bit_of(b, q)),
{
    let r = b | (1u8 << pos);
    assert forall|q: u8| q < 8 implies #[trigger] bit_of(r, q) == (q == pos || bit_of(b, q)) by {
        assert(((r >> q) & 1u8 == 1u8) == (q == pos || (b >> q) & 1u8 == 1u8)) by (bit_vector)
            requires
                pos < 8,
                q < 8,
                r == b | (1u8 << pos),
        ;
    }
    r
}

/// Whether bit `pos` of `b` is set, computed with a mask.
fn test_bit(b: u8, pos: u8) -> (r: bool)
    requires
        pos < 8,
    ensures
        r == bit_of(b, pos),
{
    let r = b & (1u8 << pos) != 0;
    assert((b & (1u8 << pos) != 0) == ((b >> pos) & 1u8 == 1u8)) by (bit_vector)
        requires
            pos < 8,
    ;
    r
}

/// Packs a code into two bytes, or `None` when it is not a valid code.
fn pack_code(s: &String) -> (r: Option<(u8, u8)>)
    ensures
        r is Some <==> is_code(s@),
        r matches Some(p) ==> packs(p.0, p.1, s@),
{
    let n = s.as_str().unicode_len();
    if n == 0 || n > MAX_CODE_BITS {
        return None;
    }
    let mut hi: u8 = 0;
    let mut lo: u8 = 0;
    proof {
        lemma_zero_bits();
    }
    let mut i: usize = 0;
    while i < n
        invariant
            n == s@.len(),
            1 <= n <= 16,
            i <= n,
            forall|j: int| 0 <= j < i ==> #[trigger] s@[j] == '0' || s@[j] == '1',
            forall|j: int| 0 <= j < 16 ==> #[trigger] packed_bit(hi, lo, j) == (j < i && s@[j] == '1'),
        decreases n - i,
    {
        let c = s.as_str().get_char(i);
        let ghost (hi0, lo0) = (hi, lo);
        if c == '1' {
            if i < 8 {
                hi = set_bit(hi, (7 - i) as u8);
            } else {
                lo = set_bit(lo, (15 - i) as u8);
            }
        } else if c != '0' {
            return None;
        }
        assert forall|j: int| 0 <= j < 16 implies #[trigger] packed_bit(hi, lo, j) == (j < i + 1
            && s@[j] == '1') by {
            assert(packed_bit(hi0, lo0, j) == (j < i && s@[j] == '1'));
            if j < 8 {
                assert(bit_of(hi, (7 - j) as u8) == ((7 - j) as u8 == (7 - i) as u8 && c == '1' && i < 8
                    || bit_of(hi0, (7 - j) as u8)));
            } else {
                assert(bit_of(lo, (15 - j) as u8) == ((15 - j) as u8 == (15 - i) as u8 && c == '1'
                    && i >= 8 || bit_of(lo0, (15 - j) as u8)));
            }
        }
        i += 1;
    }
    Some((hi, lo))
}

/// The code held in the first `len` bits of `hi` then `lo`.
fn unpack_code(hi: u8, lo: u8, len: u8) -> (s: String)
    requires
        len <= 16,
    ensures
        s@ == unpack(hi, lo, len as nat),
{
    let mut s = String::new();
    let mut j: u8 = 0;
    while j < len
        invariant
            j <= len <= 16,
            s@ == unpack(hi, lo, j as nat),
        decreases len - j,
    {
        let set = if j < 8 {
            test_bit(hi, 7 - j)
        } else {
            test_bit(lo, 15 - j)
        };
        proof {
            reveal_strlit("1");
            reveal_strlit("0");
        }
        if set {
            s.append("1");
        } else {
            s.append("0");
        }
        j += 1;
        assert(s@ =~= unpack(hi, lo, j as nat));
    }
    s
}


/// One record: a symbol and its code, packed into two bytes.
struct TableElement {
    key: u8,
    value_size: u8,
    hi: u8,
    lo: u8,
}

/// Failure to build a table from a dictionary.
#[derive(Debug, PartialEq, Eq, Structural)]
pub enum EncodeError {
    /// A code is empty, longer than 16 bits, or holds a character other than `'0'` and `'1'`.
    BoundsViolation,
}

/// Failure to read a table back from bytes.
#[derive(Debug, PartialEq, Eq, Structural)]
pub enum DecodeError {
    /// The buffer is shorter than 4 bytes, or than the size its record count declares.
    TooShort,
    /// A record declares a code longer than its 16 packed bits.
    CodeTooLong,
}

/// A symbol-to-code table ready to be written, one record per symbol in ascending symbol order.
pub struct SerializeTable {
    table: Vec<TableElement>,
}

/// A dictionary of strings seen as a dictionary of character sequences.
pub open spec fn code_map(m: Map<u8, String>) -> Map<u8, Seq<char>> {
    Map::new(|k: u8| m.contains_key(k), |k: u8| m[k]@)
}

/// Every code of the dictionary is valid.
pub open spec fn codes_valid(d: Map<u8, Seq<char>>) -> bool {
    forall|k: u8| #[trigger] d.contains_key(k) ==> is_code(d[k])
}

/// The entries of `d` whose symbol is below `k`, in ascending symbol order.
pub open spec fn records_upto(d: Map<u8, Seq<char>>, k: int) -> Seq<(u8, Seq<char>)>
    decreases k,
{
    if k <= 0 {
        Seq::empty()
    } else {
        let rest = records_upto(d, k - 1);
        if d.contains_key((k - 1) as u8) {
            rest.push(((k - 1) as u8, d[(k - 1) as u8]))
        } else {
            rest
        }
    }
}

/// The records of a whole dictionary, in ascending symbol order.
pub open spec fn records_of(d: Map<u8, Seq<char>>) -> Seq<(u8, Seq<char>)> {
    records_upto(d, 256)
}

/// Bytes `p .. p + 4` of `buf` hold the record of `sym` with code `code`.
pub open spec fn record_at(buf: Seq<u8>, p: int, sym: u8, code: Seq<char>) -> bool {
    &&& buf[p] == sym
    &&& buf[p + 1] as nat == code.len()
    &&& packs(buf[p + 2], buf[p + 3], code)
}

/// From offset `s`, `buf` holds the count of `recs` in big-endian, then each record in turn.
pub open spec fn serialized_at(buf: Seq<u8>, s: int, recs: Seq<(u8, Seq<char>)>) -> bool {
    &&& 0 <= s
    &&& s + 2 + 4 * recs.len() <= buf.len()
    &&& buf[s] as nat == recs.len() / 256
    &&& buf[s + 1] as nat == recs.len() % 256
    &&& forall|i: int|
        0 <= i < recs.len() ==> #[trigger] record_at(buf, s + 2 + 4 * i, recs[i].0, recs[i].1)
}

/// The record count that a buffer declares in its first two bytes.
pub open spec fn declared_count(buf: Seq<u8>) -> nat {
    buf[0] as nat * 256 + buf[1] as nat
}

/// The buffer is too short to hold the header, or the records that it declares.
pub open spec fn too_short(buf: Seq<u8>) -> bool {
    buf.len() < 4 || buf.len() < 2 + 4 * declared_count(buf)
}

/// Some declared record gives a code length above 16.
pub open spec fn has_long_code(buf: Seq<u8>) -> bool {
    exists|i: int| 0 <= i < declared_count(buf) && #[trigger] buf[2 + 4 * i + 1] > 16
}

/// The dictionary made by the first `n` records of `buf`, a later symbol overwriting an earlier one.
pub open spec fn decoded_upto(buf: Seq<u8>, n: nat) -> Map<u8, Seq<char>>
    decreases n,
{
    if n == 0 {
        Map::empty()
    } else {
        let p = 2 + 4 * (n - 1);
        decoded_upto(buf, (n - 1) as nat).insert(
            buf[p],
            unpack(buf[p + 2], buf[p + 3], buf[p + 1] as nat),
        )
    }
}

/// The dictionary that a well-formed buffer holds.
pub open spec fn decoded(buf: Seq<u8>) -> Map<u8, Seq<char>> {
    decoded_upto(buf, declared_count(buf))
}

impl View for SerializeTable {
    type V = Seq<(u8, Seq<char>)>;

    closed spec fn view(&self) -> Seq<(u8, Seq<char>)> {
        Seq::new(
            self.table@.len(),
            |i: int|
                (
                    self.table@[i].key,
                    unpack(self.table@[i].hi, self.table@[i].lo, self.table@[i].value_size as nat),
                ),
        )
    }
}

impl SerializeTable {
    /// At most 256 records, each with a valid code held in its packed bytes.
    pub closed spec fn wf(&self) -> bool {
        &&& self.table@.len() <= 256
        &&& forall|i: int|
            0 <= i < self.table@.len() ==> {
                let e = #[trigger] self.table@[i];
                let code = unpack(e.hi, e.lo, e.value_size as nat);
                is_code(code) && packs(e.hi, e.lo, code)
            }
    }

    /// Builds the table of a dictionary, one record per symbol in ascending symbol order.
    /// Fails when a code is not 1 to 16 characters of `'0'` and `'1'`.
    pub fn new(map: &HashMap<u8, String>) -> (r: Result<SerializeTable, EncodeError>)
        ensures
            r is Ok <==> codes_valid(code_map(map@)),
            r matches Ok(t) ==> t.wf() && t@ == records_of(code_map(map@)),
            r matches Err(e) ==> e == EncodeError::BoundsViolation,
    {
        let ghost d = code_map(map@);
        let mut table: Vec<TableElement> = Vec::new();
        let mut k: u16 = 0;
        while k < 256
            invariant
                d == code_map(map@),
                k <= 256,
                table@.len() <= k,
                forall|j: u8| j < k && #[trigger] d.contains_key(j) ==> is_code(d[j]),
                forall|i: int|
                    0 <= i < table@.len() ==> {
                        let e = #[trigger] table@[i];
                        let code = unpack(e.hi, e.lo, e.value_size as nat);
                        is_code(code) && packs(e.hi, e.lo, code)
                    },
                (SerializeTable { table })@ == records_upto(d, k as int),
            decreases 256 - k,
        {
            let key = k as u8;
            let ghost before = table@;
            match map.get(&key) {
                Some(value) => {
                    match pack_code(value) {
                        Some(p) => {
                            let e = TableElement { key, value_size: value.as_str().unicode_len() as u8, hi: p.0, lo: p.1 };
                            assert(unpack(p.0, p.1, value@.len()) =~= value@);
                            table.push(e);
                            assert((SerializeTable { table })@ =~= records_upto(d, k + 1));
                        },
                        None => {
                            return Err(EncodeError::BoundsViolation);
                        },
                    }
                },
                None => {
                    assert((SerializeTable { table })@ =~= records_upto(d, k + 1));
                },
            }
            k += 1;
        }
        Ok(SerializeTable { table })
    }

    /// Writes the record count as two big-endian bytes at `*start_index`, then each record as
    /// 4 bytes, and moves `*start_index` past them. Nothing else in the buffer changes.
    pub fn serialize(&self, output_buf: &mut Vec<u8>, start_index: &mut usize)
        requires
            self.wf(),
            *old(start_index) + HEADER_SIZE + ELEMENT_SIZE * self@.len() <= old(output_buf)@.len(),
        ensures
            final(output_buf)@.len() == old(output_buf)@.len(),
            *final(start_index) == *old(start_index) + HEADER_SIZE + ELEMENT_SIZE * self@.len(),
            serialized_at(final(output_buf)@, *old(start_index) as int, self@),
            forall|j: int|
                0 <= j < old(output_buf)@.len() && !(*old(start_index) <= j < *final(start_index))
                    ==> #[trigger] final(output_buf)@[j] == old(output_buf)@[j],
    {
        let n = self.table.len();
        let buf_len = output_buf.len();
        let start = *start_index;
        output_buf.set(start, (n / 256) as u8);
        output_buf.set(start + 1, (n % 256) as u8);
        let ghost orig = old(output_buf)@;
        let mut i = start + HEADER_SIZE;
        let mut idx: usize = 0;
        while idx < n
            invariant
                self.wf(),
                n == self@.len(),
                n <= 256,
                start + 2 + 4 * n <= output_buf@.len(),
                output_buf@.len() == orig.len(),
                orig.len() == buf_len,
                idx <= n,
                i == start + 2 + 4 * idx,
                output_buf@[start as int] as nat == n / 256,
                output_buf@[start + 1] as nat == n % 256,
                forall|r: int| 0 <= r < idx ==> #[trigger] record_at(output_buf@, start + 2 + 4 * r, self@[r].0, self@[r].1),
                forall|j: int| 0 <= j < orig.len() && !(start <= j < i) ==> #[trigger] output_buf@[j] == orig[j],
            decreases n - idx,
        {
            let element = &self.table[idx];
            let ghost prev = output_buf@;
            output_buf.set(i, element.key);
            output_buf.set(i + 1, element.value_size);
            output_buf.set(i + 2, element.hi);
            output_buf.set(i + 3, element.lo);
            proof {
                let code = unpack(element.hi, element.lo, element.value_size as nat);
                assert(self@[idx as int] == (element.key, code));
                assert(record_at(output_buf@, i as int, element.key, code));
                assert forall|r: int| 0 <= r < idx + 1 implies #[trigger] record_at(output_buf@, start + 2 + 4 * r, self@[r].0, self@[r].1) by {
                    if r < idx {
                        assert(record_at(prev, start + 2 + 4 * r, self@[r].0, self@[r].1));
                    }
                }
            }
            i += ELEMENT_SIZE;
            idx += 1;
        }
        *start_index = i;
    }

    /// Reads a table back into a dictionary. Bytes after the declared records are ignored, and a
    /// symbol that occurs twice keeps its later code.
    pub fn deserialize(input_buf: &Vec<u8>) -> (r: Result<HashMap<u8, String>, DecodeError>)
        ensures
            too_short(input_buf@) ==> r == Err::<HashMap<u8, String>, DecodeError>(DecodeError::TooShort),
            !too_short(input_buf@) && has_long_code(input_buf@) ==> r == Err::<HashMap<u8, String>, DecodeError>(DecodeError::CodeTooLong),
            !too_short(input_buf@) && !has_long_code(input_buf@) ==> (r matches Ok(m) && code_map(m@) == decoded(input_buf@)),
    {
        let len = input_buf.len();
        if len < 4 {
            return Err(DecodeError::TooShort);
        }
        let table_size = (input_buf[0] as usize) * 256 + input_buf[1] as usize;
        if len < HEADER_SIZE + ELEMENT_SIZE * table_size {
            return Err(DecodeError::TooShort);
        }
        let mut map: HashMap<u8, String> = HashMap::new();
        let mut idx: usize = 0;
        while idx < table_size
            invariant
                len == input_buf@.len(),
                table_size == declared_count(input_buf@),
                2 + 4 * table_size <= len,
                idx <= table_size,
                forall|j: int| 0 <= j < idx ==> #[trigger] input_buf@[2 + 4 * j + 1] <= 16,
                code_map(map@) == decoded_upto(input_buf@, idx as nat),
            decreases table_size - idx,
        {
            let i = HEADER_SIZE + ELEMENT_SIZE * idx;
            let key = input_buf[i];
            let value_size = input_buf[i + 1];
            if value_size as usize > MAX_CODE_BITS {
                assert(input_buf@[2 + 4 * idx + 1] > 16);
                return Err(DecodeError::CodeTooLong);
            }
            let value = unpack_code(input_buf[i + 2], input_buf[i + 3], value_size);
            let ghost before = map@;
            map.insert(key, value);
            assert(code_map(map@) =~= code_map(before).insert(key, value@));
            idx += 1;
        }
        Ok(map)
    }
}

/// The dictionary that a sequence of records builds, a later symbol overwriting an earlier one.
pub open spec fn map_of(recs: Seq<(u8, Seq<char>)>) -> Map<u8, Seq<char>>
    decreases recs.len(),
{
    if recs.len() == 0 {
        Map::empty()
    } else {
        map_of(recs.drop_last()).insert(recs.last().0, recs.last().1)
    }
}

proof fn lemma_records_upto(d: Map<u8, Seq<char>>, k: int)
    requires
        0 <= k <= 256,
    ensures
        records_upto(d, k).len() <= k,
        forall|i: int|
            0 <= i < records_upto(d, k).len() ==> d.contains_key(#[trigger] records_upto(d, k)[i].0)
                && d[records_upto(d, k)[i].0] == records_upto(d, k)[i].1,
        forall|x: u8|
            #[trigger] map_of(records_upto(d, k)).contains_key(x) <==> (d.contains_key(x) && x < k),
        forall|x: u8|
            #[trigger] map_of(records_upto(d, k)).contains_key(x) ==> map_of(records_upto(d, k))[x]
                == d[x],
    decreases k,
{
    if k > 0 {
        lemma_records_upto(d, k - 1);
        let rest = records_upto(d, k - 1);
        let cur = records_upto(d, k);
        if d.contains_key((k - 1) as u8) {
            assert(cur.drop_last() =~= rest);
            assert(map_of(cur) == map_of(rest).insert((k - 1) as u8, d[(k - 1) as u8]));
        } else {
            assert(cur == rest);
        }
        assert forall|x: u8| #[trigger] map_of(cur).contains_key(x) <==> (d.contains_key(x) && x < k) by {
            assert(map_of(rest).contains_key(x) <==> (d.contains_key(x) && x < k - 1));
        }
        assert forall|x: u8| #[trigger] map_of(cur).contains_key(x) implies map_of(cur)[x] == d[x] by {
            if x != (k - 1) as u8 {
                assert(map_of(rest).contains_key(x));
            }
        }
    } else {
        assert(map_of(records_upto(d, k)) == Map::<u8, Seq<char>>::empty());
    }
}

proof fn lemma_decoded_records(buf: Seq<u8>, recs: Seq<(u8, Seq<char>)>, m: nat)
    requires
        serialized_at(buf, 0, recs),
        forall|i: int| 0 <= i < recs.len() ==> is_code(#[trigger] recs[i].1),
        m <= recs.len(),
    ensures
        decoded_upto(buf, m) == map_of(recs.take(m as int)),
    decreases m,
{
    if m > 0 {
        lemma_decoded_records(buf, recs, (m - 1) as nat);
        let i = m - 1;
        let p = 2 + 4 * i;
        assert(record_at(buf, 2 + 4 * i, recs[i].0, recs[i].1));
        let code = recs[i].1;
        assert(is_code(code));
        assert(unpack(buf[p + 2], buf[p + 3], buf[p + 1] as nat) =~= code);
        assert(recs.take(m as int).drop_last() =~= recs.take(i));
    }
}

/// Round trip: a dictionary of valid codes, encoded and serialized from the start of a buffer of
/// at least 4 bytes, is read back as the same dictionary, with no error.
pub proof fn lemma_round_trip(d: Map<u8, Seq<char>>, buf: Seq<u8>)
    requires
        codes_valid(d),
        serialized_at(buf, 0, records_of(d)),
        buf.len() >= 4,
    ensures
        !too_short(buf),
        !has_long_code(buf),
        decoded(buf) == d,
{
    let recs = records_of(d);
    lemma_records_upto(d, 256);
    let n = recs.len();
    assert(declared_count(buf) == n);
    assert forall|i: int| 0 <= i < n implies is_code(#[trigger] recs[i].1) by {
        assert(d.contains_key(recs[i].0));
    }
    assert forall|i: int| 0 <= i < declared_count(buf) implies !(#[trigger] buf[2 + 4 * i + 1] > 16) by {
        assert(record_at(buf, 2 + 4 * i, recs[i].0, recs[i].1));
        assert(is_code(recs[i].1));
    }
    lemma_decoded_records(buf, recs, n);
    assert(recs.take(n as int) =~= recs);
    assert(decoded(buf) =~= d);
}

} // verus!
