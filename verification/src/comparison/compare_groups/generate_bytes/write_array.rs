//! Lays out the values of one field, or a slice of each value, one after the
//! other.

use vstd::prelude::*;
use crate::analyzer::{AnalyzerFieldState, unique_names};
use crate::bits::{byte_aligned_stream, read_value, value_bits, BitReaderContainer, BitWriterContainer,
    lemma_read_value_bound, lemma_value_bits_of_read};
use crate::schema::GroupComponentArray;
use super::{GenerateBytesError, named, index_of_name, aligned_state, writers_wf, find_field, align_state,
    FieldData, data_of, data_named, data_index};
use vstd::arithmetic::power2::{lemma2_to64, lemma_pow2_strictly_increases};

verus! {

/// The bits written for the array element whose value starts at bit `p` of the
/// field data `r`: the `bits` bits found `offset` bits further, read in the
/// order `m` and written in the order `mw`. Fails when that position cannot be
/// reached, or when the bits cannot be read.
pub open spec fn array_element(r: Seq<bool>, m: bool, mw: bool, p: nat, offset: nat, bits: nat) -> Result<Seq<bool>, GenerateBytesError> {
    let q = p + offset;
    if q > u64::MAX || !(q % 8 == 0 || q <= r.len()) {
        Err(GenerateBytesError::SeekError { bits: offset as u32 })
    } else if bits > 64 || (bits > 0 && q + bits > r.len()) {
        Err(GenerateBytesError::ReadError { bits: bits as u32 })
    } else {
        Ok(value_bits(
            (if bits == 0 { 0 } else { read_value(r.subrange(q as int, (q + bits) as int), m) }) as u64,
            bits,
            mw,
        ))
    }
}

/// The bits written for an array over the field data `r` from bit `p` on, with
/// values of `len` bits, and the error that stops it, if any.
///
/// Elements are written while a whole value is left. With values of 0 bits
/// there is no end: after the first element the array fails as never exhausted.
pub open spec fn array_output(r: Seq<bool>, m: bool, mw: bool, p: nat, len: nat, offset: nat, bits: nat) -> (Seq<bool>, Option<GenerateBytesError>)
    decreases r.len() - p,
{
    if p + len > r.len() {
        (Seq::empty(), None)
    } else {
        match array_element(r, m, mw, p, offset, bits) {
            Err(e) => (Seq::empty(), Some(e)),
            Ok(out) => if len == 0 {
                (out, Some(GenerateBytesError::NeverExhausted))
            } else {
                let rest = array_output(r, m, mw, p + len, len, offset, bits);
                (out + rest.0, rest.1)
            },
        }
    }
}

/// The result that an error, or its absence, gives.
pub open spec fn result_of(err: Option<GenerateBytesError>) -> Result<(), GenerateBytesError> {
    match err {
        None => Ok(()),
        Some(e) => Err(e),
    }
}

/// The bits an array writes over the field data `data`, in the order `mw`, and
/// the error that stops it, if any.
pub open spec fn array_component_output(a: GroupComponentArray, data: Seq<FieldData>, mw: bool) -> (Seq<bool>, Option<GenerateBytesError>) {
    if !data_named(data, a.field@) {
        (Seq::empty(), Some(GenerateBytesError::FieldNotFound(a.field)))
    } else {
        let d = data[data_index(data, a.field@)];
        let bits = if a.bits == 0 { d.1 } else { a.bits };
        if d.3.len() > u64::MAX {
            (Seq::empty(), Some(GenerateBytesError::ReadError { bits }))
        } else {
            array_output(d.3, d.2, mw, 0, d.1 as nat, a.offset as nat, bits as nat)
        }
    }
}

/// Writes the array `array` of the field data kept in `field_states` to
/// `writer`.
///
/// The field's stream is first padded to a byte boundary. Its values, of the
/// field's length each, are then read from the start, and for each one the slice
/// of `bits` bits (the field's length when 0) at `offset` is written.
pub fn write_array(
    field_states: &mut Vec<AnalyzerFieldState>,
    writer: &mut BitWriterContainer,
    array: &GroupComponentArray,
) -> (r: Result<(), GenerateBytesError>)
    requires
        unique_names(old(field_states)@),
        writers_wf(old(field_states)@),
        old(writer).wf(),
    ensures
        final(writer).wf(),
        final(writer).is_msb_first() == old(writer).is_msb_first(),
        final(field_states)@.len() == old(field_states)@.len(),
        unique_names(final(field_states)@),
        writers_wf(final(field_states)@),
        data_of(final(field_states)@) == data_of(old(field_states)@),
        ({
            let (out, err) = array_component_output(*array, data_of(old(field_states)@), old(writer).is_msb_first());
            &&& final(writer).stream() == old(writer).stream() + out
            &&& r == result_of(err)
        }),
        !named(old(field_states)@, array.field@) ==> {
            &&& r == Err::<(), GenerateBytesError>(GenerateBytesError::FieldNotFound(array.field))
            &&& final(field_states)@ == old(field_states)@
            &&& final(writer).stream() == old(writer).stream()
        },
        named(old(field_states)@, array.field@) ==> ({
            let i = index_of_name(old(field_states)@, array.field@);
            let st = old(field_states)@[i];
            let data = byte_aligned_stream(st.writer.stream());
            let bits = if array.bits == 0 { st.lenbits } else { array.bits };
            let (out, err) = array_output(data, st.writer.is_msb_first(), old(writer).is_msb_first(), 0,
                st.lenbits as nat, array.offset as nat, bits as nat);
            &&& aligned_state(st, final(field_states)@[i])
            &&& forall|j: int| 0 <= j < old(field_states)@.len() && j != i ==> final(field_states)@[j] == old(field_states)@[j]
            &&& data.len() > u64::MAX ==> {
                &&& r == Err::<(), GenerateBytesError>(GenerateBytesError::ReadError { bits })
                &&& final(writer).stream() == old(writer).stream()
            }
            &&& data.len() <= u64::MAX ==> {
                &&& final(writer).stream() == old(writer).stream() + out
                &&& r == result_of(err)
            }
        }),
{
    let idx = match find_field(field_states, &array.field) {
        None => {
            return Err(GenerateBytesError::FieldNotFound(array.field.clone()));
        },
        Some(i) => i,
    };
    let bits = array.get_bits(&field_states[idx]);
    let offset = array.offset;
    let field_len = field_states[idx].lenbits;
    let ghost olds = field_states@;
    align_state(field_states, idx);
    proof {
        let news = field_states@;
        assert forall|a: int, b: int| 0 <= a < b < news.len() implies (#[trigger] news[a]).name@ != (#[trigger] news[b]).name@ by {
            assert(olds[a].name@ != olds[b].name@);
        }
        assert forall|a: int| 0 <= a < news.len() implies (#[trigger] news[a]).writer.wf() by {
            if a != idx {
                assert(news[a] == olds[a]);
            }
        }
    }
    let m = field_states[idx].writer.msb_first();
    let bytes = field_states[idx].writer.as_bytes();
    proof {
        crate::bits::lemma_aligned_idempotent(olds[idx as int].writer.stream());
        let news = field_states@;
        assert forall|a: int| 0 <= a < olds.len() implies #[trigger] data_of(news)[a] == data_of(olds)[a] by {
            if a != idx {
                assert(news[a] == olds[a]);
            }
        }
        assert(data_of(news) =~= data_of(olds));
    }
    if bytes.len() as u64 > u64::MAX / 8 {
        return Err(GenerateBytesError::ReadError { bits });
    }
    let mut reader = BitReaderContainer::new(bytes, m);
    write_array_inner(&mut reader, bits, offset, field_len, writer)
}

/// Writes the elements of an array, reading the field data from `reader`.
fn write_array_inner(
    reader: &mut BitReaderContainer,
    bits: u32,
    offset: u32,
    field_len: u32,
    writer: &mut BitWriterContainer,
) -> (r: Result<(), GenerateBytesError>)
    requires
        old(reader).wf(),
        old(reader).pos() == 0,
        old(writer).wf(),
    ensures
        final(writer).wf(),
        final(writer).is_msb_first() == old(writer).is_msb_first(),
        ({
            let (out, err) = array_output(old(reader).stream(), old(reader).is_msb_first(), old(writer).is_msb_first(),
                0, field_len as nat, offset as nat, bits as nat);
            &&& final(writer).stream() == old(writer).stream() + out
            &&& r == result_of(err)
        }),
{
    let ghost rs = reader.stream();
    let ghost m = reader.is_msb_first();
    let ghost mw = writer.is_msb_first();
    let ghost w0 = writer.stream();
    let ghost total = array_output(rs, m, mw, 0, field_len as nat, offset as nat, bits as nat);
    let ghost mut acc: Seq<bool> = Seq::empty();
    assert(total.0 =~= acc + total.0);
    loop
        invariant
            reader.wf(),
            reader.stream() == rs,
            reader.is_msb_first() == m,
            reader.pos() <= rs.len(),
            writer.wf(),
            writer.is_msb_first() == mw,
            writer.stream() == w0 + acc,
            mw == old(writer).is_msb_first(),
            w0 == old(writer).stream(),
            rs == old(reader).stream(),
            m == old(reader).is_msb_first(),
            total == array_output(rs, m, mw, 0, field_len as nat, offset as nat, bits as nat),
            total.0 == acc + array_output(rs, m, mw, reader.pos(), field_len as nat, offset as nat, bits as nat).0,
            total.1 == array_output(rs, m, mw, reader.pos(), field_len as nat, offset as nat, bits as nat).1,
        decreases rs.len() - reader.pos(),
    {
        let pos = reader.position_in_bits();
        let t = reader.total_bits();
        let ghost here = array_output(rs, m, mw, pos as nat, field_len as nat, offset as nat, bits as nat);
        if t - pos < field_len as u64 {
            assert(acc + here.0 =~= acc);
            return Ok(());
        }
        let ending_pos = pos + field_len as u64;
        if pos > u64::MAX - offset as u64 {
            return Err(GenerateBytesError::SeekError { bits: offset });
        }
        if reader.seek_bits(pos + offset as u64).is_err() {
            return Err(GenerateBytesError::SeekError { bits: offset });
        }
        let value = match reader.read(bits) {
            Ok(v) => v,
            Err(_) => {
                return Err(GenerateBytesError::ReadError { bits });
            },
        };
        proof {
            let q = pos + offset;
            if bits > 0 {
                lemma_read_value_bound(rs.subrange(q as int, q + bits), m);
                lemma2_to64();
                if bits < 64 {
                    lemma_pow2_strictly_increases(bits as nat, 64);
                }
            }
        }
        let ghost out = value_bits(value, bits as nat, mw);
        writer.write(bits, value);
        let _ = reader.seek_bits(ending_pos);
        if field_len == 0 {
            assert(acc + here.0 =~= acc + out);
            return Err(GenerateBytesError::NeverExhausted);
        }
        proof {
            let rest = array_output(rs, m, mw, ending_pos as nat, field_len as nat, offset as nat, bits as nat);
            assert(here.0 == out + rest.0);
            assert(acc + (out + rest.0) =~= (acc + out) + rest.0);
            acc = acc + out;
        }
    }
}

/// Elements of whole values, read and written in one order, reproduce the data
/// from `p` up to the last whole value.
proof fn lemma_array_output_whole_values(r: Seq<bool>, m: bool, p: nat, len: nat)
    requires
        0 < len <= 64,
        p <= r.len(),
        r.len() <= u64::MAX,
    ensures
        array_output(r, m, m, p, len, 0, len)
            == (r.subrange(p as int, p + ((r.len() - p) / len as int) * len), None::<GenerateBytesError>),
    decreases r.len() - p,
{
    let x = (r.len() - p) as int;
    if p + len > r.len() {
        assert(x / len as int == 0) by (nonlinear_arith)
            requires
                0 <= x < len,
        ;
        assert(r.subrange(p as int, p as int) =~= Seq::<bool>::empty());
    } else {
        let seg = r.subrange(p as int, (p + len) as int);
        lemma_value_bits_of_read(seg, m);
        lemma_array_output_whole_values(r, m, p + len, len);
        assert(x / len as int == 1 + (x - len) / len as int) by (nonlinear_arith)
            requires
                x >= len,
                len > 0,
        ;
        assert(((x - len) / len as int) * len + len == (x / len as int) * len) by (nonlinear_arith)
            requires
                x / len as int == 1 + (x - len) / len as int,
        ;
        let k = (x - len) / len as int;
        assert(0 <= k) by (nonlinear_arith)
            requires
                x >= len,
                len > 0,
                k == (x - len) / len as int,
        ;
        assert(k * len <= x - len) by (nonlinear_arith)
            requires
                x >= len,
                len > 0,
                k == (x - len) / len as int,
        ;
        assert(seg + r.subrange((p + len) as int, p + len + k * len) =~= r.subrange(p as int, p + (x / len as int) * len));
    }
}

/// Round trip: an array of the whole values of a field of 1 to 64 bits, written
/// in the field's own bit order with no offset, gives back the field's data up
/// to its last whole value (all of it when its length is a multiple of the
/// field's).
pub proof fn lemma_array_round_trip(a: GroupComponentArray, data: Seq<FieldData>)
    requires
        data_named(data, a.field@),
        ({
            let d = data[data_index(data, a.field@)];
            &&& 0 < d.1 <= 64
            &&& a.offset == 0
            &&& (a.bits == 0 || a.bits == d.1)
            &&& d.3.len() <= u64::MAX
        }),
    ensures
        ({
            let d = data[data_index(data, a.field@)];
            array_component_output(a, data, d.2)
                == (d.3.subrange(0, (d.3.len() as int / d.1 as int) * d.1), None::<GenerateBytesError>)
        }),
{
    let d = data[data_index(data, a.field@)];
    lemma_array_output_whole_values(d.3, d.2, 0, d.1 as nat);
}

} // verus!
