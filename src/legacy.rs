//! The legacy UTXO declaration: a list of legacy addresses, kept as opaque
//! bytes, each with a value.
//!
//! Wire format, integers big-endian:
//! `count:u8`, then `count` times `value:u64 addr_len:u16 addr:[u8; addr_len]`,
//! where `count` is below 255.
use vstd::prelude::*;

use crate::bytes::{
    get_slice, get_u16, get_u8, lemma_u16_be_round_trip, lemma_u64_be_round_trip, put_bytes,
    put_u16, short_read, u16_be_bytes, u16_from_be, u64_be_bytes, u64_from_be, ReadError,
};
use crate::value::Value;

verus! {

/// The count byte at or above which a declaration is refused.
pub const MAX_ENTRIES: u8 = 255;

/// The largest length of an address, the range of its two-byte length field.
pub const MAX_ADDRESS_LEN: usize = 65535;

/// The bytes of one entry: its value, the length of its address, the address.
pub open spec fn entry_bytes(e: (Seq<u8>, u64)) -> Seq<u8> {
    u64_be_bytes(e.1) + u16_be_bytes(e.0.len() as u16) + e.0
}

/// The bytes of a run of entries, one after the other.
pub open spec fn entries_bytes(es: Seq<(Seq<u8>, u64)>) -> Seq<u8>
    decreases es.len(),
{
    if es.len() == 0 {
        Seq::empty()
    } else {
        entries_bytes(es.drop_last()) + entry_bytes(es.last())
    }
}

/// The encoding of a declaration with entries `es`: the count byte, then the entries.
pub open spec fn declaration_bytes(es: Seq<(Seq<u8>, u64)>) -> Seq<u8> {
    seq![es.len() as u8] + entries_bytes(es)
}

/// Entries that the format can carry: fewer than 255, each address at most
/// 65535 bytes long.
pub open spec fn encodable(es: Seq<(Seq<u8>, u64)>) -> bool {
    &&& es.len() < MAX_ENTRIES
    &&& forall|i: int| 0 <= i < es.len() ==> (#[trigger] es[i]).0.len() <= MAX_ADDRESS_LEN
}

/// Reading one entry of `b` at `pos`: the entry and the position after it, or
/// the first read that runs past the end.
pub open spec fn parse_entry(b: Seq<u8>, pos: int) -> Result<((Seq<u8>, u64), int), ReadError> {
    if b.len() - pos < 8 {
        Err(short_read(b.len() as int, pos, 8))
    } else if b.len() - (pos + 8) < 2 {
        Err(short_read(b.len() as int, pos + 8, 2))
    } else {
        let n = u16_from_be(b[pos + 8], b[pos + 9]) as int;
        if b.len() - (pos + 10) < n {
            Err(short_read(b.len() as int, pos + 10, n))
        } else {
            Ok(((b.subrange(pos + 10, pos + 10 + n), u64_from_be(b, pos)), pos + 10 + n))
        }
    }
}

/// Reading `n` entries of `b` in turn from `pos`: the entries and the position
/// after them, or the first error.
pub open spec fn parse_entries(b: Seq<u8>, pos: int, n: nat) -> Result<
    (Seq<(Seq<u8>, u64)>, int),
    ReadError,
>
    decreases n,
{
    if n == 0 {
        Ok((Seq::empty(), pos))
    } else {
        match parse_entries(b, pos, (n - 1) as nat) {
            Err(e) => Err(e),
            Ok(done) => match parse_entry(b, done.1) {
                Err(e) => Err(e),
                Ok(next) => Ok((done.0.push(next.0), next.1)),
            },
        }
    }
}

/// Reading a declaration of `b` at `pos`: its entries and the position after
/// it, or why it cannot be read.
pub open spec fn parse_declaration(b: Seq<u8>, pos: int) -> Result<
    (Seq<(Seq<u8>, u64)>, int),
    ReadError,
> {
    if b.len() - pos < 1 {
        Err(short_read(b.len() as int, pos, 1))
    } else if b[pos] >= MAX_ENTRIES {
        Err(ReadError::StructureInvalid)
    } else {
        parse_entries(b, pos + 1, b[pos] as nat)
    }
}

/// A list of legacy addresses, each with the value it holds.
#[derive(Clone, Debug, PartialEq, Eq)]
pub struct UtxoDeclaration {
    pub addrs: Vec<(Vec<u8>, Value)>,
}

impl View for UtxoDeclaration {
    type V = Seq<(Seq<u8>, u64)>;

    open spec fn view(&self) -> Seq<(Seq<u8>, u64)> {
        self.addrs@.map_values(|e: (Vec<u8>, Value)| (e.0@, e.1.0))
    }
}

/// Once reading the first `k` entries fails, reading more fails with the same error.
proof fn lemma_parse_entries_error_stays(b: Seq<u8>, pos: int, k: nat, n: nat)
    requires
        k <= n,
        parse_entries(b, pos, k) is Err,
    ensures
        parse_entries(b, pos, n) == parse_entries(b, pos, k),
    decreases n - k,
{
    if k < n {
        lemma_parse_entries_error_stays(b, pos, k, (n - 1) as nat);
    }
}

impl UtxoDeclaration {
    /// The declaration has fewer than 255 entries and no address longer than
    /// 65535 bytes.
    pub open spec fn wf(&self) -> bool {
        encodable(self@)
    }

    /// Reads a declaration from `buf` at `pos`; returns it with the position
    /// right after it. Bytes after the declaration are not looked at.
    ///
    /// Fails with `StructureInvalid` when the count byte is 255, and with
    /// `NotEnoughBytes` at the first read that runs past the end of `buf`.
    pub fn read(buf: &[u8], pos: usize) -> (r: Result<(UtxoDeclaration, usize), ReadError>)
        requires
            pos <= buf@.len(),
        ensures
            match parse_declaration(buf@, pos as int) {
                Ok(parsed) => r is Ok && r->Ok_0.0@ == parsed.0 && r->Ok_0.1 == parsed.1
                    && r->Ok_0.0.wf(),
                Err(e) => r == Err::<(UtxoDeclaration, usize), ReadError>(e),
            },
    {
        let buf_len = buf.len();
        let (count, mut p) = match get_u8(buf, pos) {
            Ok(x) => x,
            Err(e) => return Err(e),
        };
        if count >= MAX_ENTRIES {
            return Err(ReadError::StructureInvalid);
        }
        let ghost start = p as int;
        let mut addrs: Vec<(Vec<u8>, Value)> = Vec::with_capacity(count as usize);
        assert((UtxoDeclaration { addrs })@ =~= Seq::empty());
        let mut i: u8 = 0;
        while i < count
            invariant
                i <= count < MAX_ENTRIES,
                start == pos + 1,
                buf@[pos as int] == count,
                start <= p <= buf@.len(),
                buf@.len() == buf_len,
                parse_entries(buf@, start, i as nat) == Ok::<(Seq<(Seq<u8>, u64)>, int), ReadError>(
                    ((UtxoDeclaration { addrs })@, p as int),
                ),
                addrs@.len() == i,
                forall|j: int|
                    0 <= j < addrs@.len() ==> (#[trigger] addrs@[j]).0@.len() <= MAX_ADDRESS_LEN,
            decreases count - i,
        {
            let ghost before = (UtxoDeclaration { addrs })@;
            proof {
                reveal_with_fuel(parse_entries, 2);
            }
            let (value, p1) = match Value::read(buf, p) {
                Ok(x) => x,
                Err(e) => {
                    proof {
                        lemma_parse_entries_error_stays(buf@, start, (i + 1) as nat, count as nat);
                    }
                    return Err(e);
                },
            };
            let (len, p2) = match get_u16(buf, p1) {
                Ok(x) => x,
                Err(e) => {
                    proof {
                        lemma_parse_entries_error_stays(buf@, start, (i + 1) as nat, count as nat);
                    }
                    return Err(e);
                },
            };
            let (addr, p3) = match get_slice(buf, p2, len as usize) {
                Ok(x) => x,
                Err(e) => {
                    proof {
                        lemma_parse_entries_error_stays(buf@, start, (i + 1) as nat, count as nat);
                    }
                    return Err(e);
                },
            };
            addrs.push((addr, value));
            p = p3;
            i = i + 1;
            assert((UtxoDeclaration { addrs })@ =~= before.push((addr@, value.0)));
        }
        Ok((UtxoDeclaration { addrs }, p))
    }

    /// Appends the encoding of the declaration to `out`.
    pub fn serialize_into(&self, out: &mut Vec<u8>)
        requires
            self.wf(),
        ensures
            final(out)@ == old(out)@ + declaration_bytes(self@),
    {
        out.push(self.addrs.len() as u8);
        let mut i: usize = 0;
        while i < self.addrs.len()
            invariant
                self.wf(),
                i <= self@.len(),
                out@ == old(out)@ + seq![self@.len() as u8] + entries_bytes(self@.take(i as int)),
            decreases self@.len() - i,
        {
            let ghost prev = out@;
            let entry = &self.addrs[i];
            assert(self@[i as int] == (entry.0@, entry.1.0));
            assert(entry.0@.len() <= MAX_ADDRESS_LEN);
            entry.1.serialize_into(out);
            put_u16(out, entry.0.len() as u16);
            put_bytes(out, entry.0.as_slice());
            i = i + 1;
            assert(self@.take(i as int).drop_last() =~= self@.take(i - 1));
            assert(out@ =~= prev + entry_bytes(self@[i - 1]));
            assert(out@ =~= old(out)@ + seq![self@.len() as u8] + entries_bytes(self@.take(i as int)));
        }
        assert(self@.take(i as int) =~= self@);
    }

    /// The encoding of the declaration.
    pub fn serialize(&self) -> (r: Vec<u8>)
        requires
            self.wf(),
        ensures
            r@ == declaration_bytes(self@),
    {
        let mut out: Vec<u8> = Vec::new();
        self.serialize_into(&mut out);
        assert(out@ =~= declaration_bytes(self@));
        out
    }
}

/// The bytes of the first `k` entries begin the bytes of all of them.
proof fn lemma_entries_bytes_prefix(es: Seq<(Seq<u8>, u64)>, k: int)
    requires
        0 <= k <= es.len(),
    ensures
        entries_bytes(es.take(k)).len() <= entries_bytes(es).len(),
        entries_bytes(es).subrange(0, entries_bytes(es.take(k)).len() as int) == entries_bytes(
            es.take(k),
        ),
    decreases es.len(),
{
    if k == es.len() {
        assert(es.take(k) =~= es);
        assert(entries_bytes(es).subrange(0, entries_bytes(es).len() as int) =~= entries_bytes(es));
    } else {
        let d = es.drop_last();
        lemma_entries_bytes_prefix(d, k);
        assert(d.take(k) =~= es.take(k));
        let n = entries_bytes(es.take(k)).len() as int;
        assert(entries_bytes(es).subrange(0, n) =~= entries_bytes(d).subrange(0, n));
    }
}

/// Where the bytes of entry `e` stand in `b` at `pos`, reading an entry there
/// gives `e` and the position after those bytes.
proof fn lemma_parse_entry_of_bytes(b: Seq<u8>, pos: int, e: (Seq<u8>, u64))
    requires
        0 <= pos,
        e.0.len() <= MAX_ADDRESS_LEN,
        pos + entry_bytes(e).len() <= b.len(),
        b.subrange(pos, pos + entry_bytes(e).len()) == entry_bytes(e),
    ensures
        parse_entry(b, pos) == Ok::<((Seq<u8>, u64), int), ReadError>(
            (e, pos + entry_bytes(e).len()),
        ),
{
    let eb = entry_bytes(e);
    let len = e.0.len() as u16;
    assert forall|j: int| 0 <= j < eb.len() implies b[pos + j] == eb[j] by {
        assert(b.subrange(pos, pos + eb.len())[j] == b[pos + j]);
    }
    lemma_u64_be_round_trip(e.1);
    lemma_u16_be_round_trip(len);
    let vb = u64_be_bytes(e.1);
    assert forall|j: int| 0 <= j < 8 implies b[pos + j] == vb[j] by {
        assert(eb[j] == vb[j]);
    }
    assert(u64_from_be(b, pos) == u64_from_be(vb, 0));
    assert(b[pos + 8] == eb[8] && eb[8] == u16_be_bytes(len)[0]);
    assert(b[pos + 9] == eb[9] && eb[9] == u16_be_bytes(len)[1]);
    assert(b.subrange(pos + 10, pos + 10 + e.0.len()) =~= e.0) by {
        assert forall|j: int| 0 <= j < e.0.len() implies b.subrange(
            pos + 10,
            pos + 10 + e.0.len(),
        )[j] == e.0[j] by {
            assert(b[pos + 10 + j] == eb[10 + j]);
        }
    }
}

/// Reading the first `k` entries of an encoded declaration, with anything
/// after it, gives those entries and the position after their bytes.
proof fn lemma_parse_entries_of_bytes(es: Seq<(Seq<u8>, u64)>, extra: Seq<u8>, k: int)
    requires
        encodable(es),
        0 <= k <= es.len(),
    ensures
        parse_entries(declaration_bytes(es) + extra, 1, k as nat) == Ok::<
            (Seq<(Seq<u8>, u64)>, int),
            ReadError,
        >((es.take(k), 1 + entries_bytes(es.take(k)).len() as int)),
    decreases k,
{
    let b = declaration_bytes(es) + extra;
    if k == 0 {
        assert(es.take(0) =~= Seq::<(Seq<u8>, u64)>::empty());
    } else {
        lemma_parse_entries_of_bytes(es, extra, k - 1);
        let e = es[k - 1];
        assert(es.take(k).drop_last() =~= es.take(k - 1));
        assert(es.take(k - 1).push(e) =~= es.take(k));
        let head = entries_bytes(es.take(k - 1));
        let eb = entry_bytes(e);
        let p: int = 1 + head.len() as int;
        let m: int = eb.len() as int;
        lemma_entries_bytes_prefix(es, k);
        let all = entries_bytes(es);
        assert(b.subrange(p, p + m) =~= eb) by {
            assert forall|j: int| 0 <= j < eb.len() implies b.subrange(p, p + m)[j]
                == eb[j] by {
                assert(b[p + j] == all[head.len() + j]);
                assert(all.subrange(0, entries_bytes(es.take(k)).len() as int)[head.len() + j]
                    == (head + eb)[head.len() + j]);
            }
        }
        lemma_parse_entry_of_bytes(b, p, e);
    }
}

/// Decoding the encoding of a well-formed declaration, followed by any bytes,
/// gives back the same entries and stops where the encoding ends: trailing
/// bytes are never read.
pub proof fn lemma_decode_ignores_trailing_bytes(d: UtxoDeclaration, extra: Seq<u8>)
    requires
        d.wf(),
    ensures
        parse_declaration(declaration_bytes(d@) + extra, 0) == Ok::<
            (Seq<(Seq<u8>, u64)>, int),
            ReadError,
        >((d@, declaration_bytes(d@).len() as int)),
{
    let es = d@;
    lemma_parse_entries_of_bytes(es, extra, es.len() as int);
    assert(es.take(es.len() as int) =~= es);
    assert((declaration_bytes(es) + extra)[0] == es.len() as u8);
}

/// Decoding the encoding of a well-formed declaration gives the declaration
/// back, and uses every byte of the encoding.
pub proof fn lemma_decode_encode_round_trip(d: UtxoDeclaration)
    requires
        d.wf(),
    ensures
        parse_declaration(declaration_bytes(d@), 0) == Ok::<
            (Seq<(Seq<u8>, u64)>, int),
            ReadError,
        >((d@, declaration_bytes(d@).len() as int)),
{
    lemma_decode_ignores_trailing_bytes(d, Seq::empty());
    assert(declaration_bytes(d@) + Seq::<u8>::empty() =~= declaration_bytes(d@));
}

/// A buffer whose count byte is 255 is refused as an invalid structure,
/// whatever follows it.
pub proof fn lemma_count_255_is_invalid(b: Seq<u8>)
    requires
        b.len() >= 1,
        b[0] == 255,
    ensures
        parse_declaration(b, 0) == Err::<(Seq<(Seq<u8>, u64)>, int), ReadError>(
            ReadError::StructureInvalid,
        ),
{
}

/// A declaration whose first entry announces an address of `len` bytes, with
/// fewer than `len` bytes left after the length field, fails for want of bytes
/// at the address.
pub proof fn lemma_truncated_address_fails(count: u8, value: u64, len: u16, rest: Seq<u8>)
    requires
        1 <= count < MAX_ENTRIES,
        rest.len() < len,
    ensures
        parse_declaration(seq![count] + u64_be_bytes(value) + u16_be_bytes(len) + rest, 0)
            == Err::<(Seq<(Seq<u8>, u64)>, int), ReadError>(
            short_read(11 + rest.len() as int, 11, len as int),
        ),
{
    let b = seq![count] + u64_be_bytes(value) + u16_be_bytes(len) + rest;
    lemma_u16_be_round_trip(len);
    assert(b[9] == u16_be_bytes(len)[0] && b[10] == u16_be_bytes(len)[1]);
    reveal_with_fuel(parse_entries, 2);
    assert(parse_entries(b, 1, 1) is Err);
    lemma_parse_entries_error_stays(b, 1, 1, count as nat);
}

} // verus!
