//! Tuples as values and keys: the fields one after the other, each field before the
//! last one after its length unless its type has a fixed width; tuples compare
//! field by field.

use crate::codec::append_bytes;
use crate::types::{element_at, lemma_varint, push_varint, read_varint, varint, varint_at, TypeName, Value};
use crate::keys::{then_order, Key};
use vstd::prelude::*;
use vstd::slice::slice_subrange;
use std::cmp::Ordering;

verus! {

/// A width as a natural number.
pub open spec fn width_of(w: Option<usize>) -> Option<nat> {
    match w {
        Some(n) => Some(n as nat),
        None => None,
    }
}

/// The bytes of a field inside a tuple: a field before the last one carries its
/// length first unless its type has a fixed width; the last carries none.
pub open spec fn field_bytes(e: Seq<u8>, w: Option<nat>, last: bool) -> Seq<u8> {
    if last || w is Some {
        e
    } else {
        varint(e.len()) + e
    }
}

/// The bytes of the fields `es` of widths `ws`, one after the other.
pub open spec fn fields_bytes(es: Seq<Seq<u8>>, ws: Seq<Option<nat>>) -> Seq<u8>
    decreases es.len(),
{
    if es.len() == 0 {
        Seq::empty()
    } else {
        field_bytes(es[0], ws[0], es.len() == 1) + fields_bytes(es.drop_first(), ws.drop_first())
    }
}

/// Whether the fields can be written: each field of a fixed width has that width,
/// and each field before the last whose length is written has a length that fits a
/// `u32`.
pub open spec fn fields_fit(es: Seq<Seq<u8>>, ws: Seq<Option<nat>>) -> bool {
    &&& es.len() == ws.len()
    &&& forall|i: int| 0 <= i < es.len() ==> (#[trigger] ws[i] matches Some(n) ==> es[i].len() == n)
    &&& forall|i: int| 0 <= i < es.len() - 1 && ws[i] is None ==> (#[trigger] es[i]).len() <= u32::MAX
}

/// The bytes of the fields from `off` on, of widths `ws`: each field before the
/// last as a vector element is read, the last all the bytes that remain; `None`
/// when the data ends first.
pub open spec fn field_chunks(d: Seq<u8>, off: int, ws: Seq<Option<nat>>) -> Option<Seq<Seq<u8>>>
    decreases ws.len(),
{
    if ws.len() == 0 {
        if off == d.len() {
            Some(Seq::empty())
        } else {
            None
        }
    } else if ws.len() == 1 {
        if 0 <= off <= d.len() {
            Some(seq![d.subrange(off, d.len() as int)])
        } else {
            None
        }
    } else {
        match element_at(d, off, ws[0]) {
            Some((c, next)) => match field_chunks(d, next, ws.drop_first()) {
                Some(rest) => Some(seq![c] + rest),
                None => None,
            },
            None => None,
        }
    }
}

/// Reading the fields gives one chunk per field.
pub proof fn lemma_field_chunks_len(d: Seq<u8>, off: int, ws: Seq<Option<nat>>)
    requires
        field_chunks(d, off, ws) is Some,
    ensures
        field_chunks(d, off, ws)->0.len() == ws.len(),
    decreases ws.len(),
{
    if ws.len() > 1 {
        let (c, next) = element_at(d, off, ws[0])->0;
        lemma_field_chunks_len(d, next, ws.drop_first());
    }
}

/// Fields written one after the other, running to the end of the data, are read
/// back field by field.
pub proof fn lemma_fields(d: Seq<u8>, off: int, es: Seq<Seq<u8>>, ws: Seq<Option<nat>>)
    requires
        es.len() >= 1,
        fields_fit(es, ws),
        0 <= off,
        off + fields_bytes(es, ws).len() == d.len(),
        d.subrange(off, d.len() as int) == fields_bytes(es, ws),
    ensures
        field_chunks(d, off, ws) == Some(es),
    decreases es.len(),
{
    let all = fields_bytes(es, ws);
    let e = es[0];
    let fb = field_bytes(e, ws[0], es.len() == 1);
    assert(all == fb + fields_bytes(es.drop_first(), ws.drop_first()));
    if es.len() == 1 {
        assert(es.drop_first().len() == 0);
        assert(all =~= e);
        assert(seq![d.subrange(off, d.len() as int)] =~= es);
    } else {
        let next = off + fb.len();
        assert(d.subrange(off, next) =~= fb) by {
            assert forall|k: int| 0 <= k < fb.len() implies #[trigger] d.subrange(off, next)[k] == fb[k] by {
                assert(d.subrange(off, d.len() as int)[k] == all[k]);
            }
        }
        match ws[0] {
            Some(n) => {
                assert(e.len() == n);
                assert(element_at(d, off, ws[0]) == Some((e, next)));
            },
            None => {
                let v = varint(e.len());
                assert(e.len() <= u32::MAX);
                assert(d.subrange(off, off + v.len()) =~= v) by {
                    assert forall|k: int| 0 <= k < v.len() implies #[trigger] d.subrange(off, off + v.len())[k] == v[k] by {
                        assert(d.subrange(off, next)[k] == fb[k]);
                    }
                }
                lemma_varint(d, off, e.len());
                assert(d.subrange(off + v.len(), next) =~= e) by {
                    assert forall|k: int| 0 <= k < e.len() implies #[trigger] d.subrange(off + v.len(), next)[k] == e[k] by {
                        assert(d.subrange(off, next)[v.len() + k] == fb[v.len() + k]);
                    }
                }
                assert(element_at(d, off, ws[0]) == Some((e, next)));
            },
        }
        let rest = es.drop_first();
        let rws = ws.drop_first();
        let rb = fields_bytes(rest, rws);
        assert(d.subrange(next, d.len() as int) =~= rb) by {
            assert forall|k: int| 0 <= k < rb.len() implies #[trigger] d.subrange(next, d.len() as int)[k] == rb[k] by {
                assert(d.subrange(off, d.len() as int)[fb.len() + k] == all[fb.len() + k]);
            }
        }
        assert(fields_fit(rest, rws)) by {
            assert forall|i: int| 0 <= i < rest.len() implies (#[trigger] rws[i] matches Some(n) ==> rest[i].len() == n) by {
                assert(rws[i] == ws[i + 1] && rest[i] == es[i + 1]);
            }
            assert forall|i: int| 0 <= i < rest.len() - 1 && rws[i] is None implies (#[trigger] rest[i]).len() <= u32::MAX by {
                assert(rest[i] == es[i + 1]);
                assert(rws[i] == ws[i + 1]);
            }
        }
        lemma_fields(d, next, rest, rws);
        assert(seq![e] + rest =~= es);
    }
}

/// The bytes of the fields, read from the start, give the fields back.
pub proof fn lemma_fields_whole(es: Seq<Seq<u8>>, ws: Seq<Option<nat>>)
    requires
        es.len() >= 1,
        fields_fit(es, ws),
    ensures
        field_chunks(fields_bytes(es, ws), 0, ws) == Some(es),
{
    let d = fields_bytes(es, ws);
    assert(d.subrange(0, d.len() as int) =~= d);
    lemma_fields(d, 0, es, ws);
}

/// Writes the fields `es` of widths `ws` one after the other.
pub fn join_fields(es: &Vec<Vec<u8>>, ws: &Vec<Option<usize>>) -> (r: Vec<u8>)
    requires
        fields_fit(es@.map_values(|e: Vec<u8>| e@), ws@.map_values(|w: Option<usize>| width_of(w))),
    ensures
        r@ == fields_bytes(es@.map_values(|e: Vec<u8>| e@), ws@.map_values(|w: Option<usize>| width_of(w))),
{
    let ghost evs = es@.map_values(|e: Vec<u8>| e@);
    let ghost wvs = ws@.map_values(|w: Option<usize>| width_of(w));
    let mut r: Vec<u8> = Vec::new();
    let n = es.len();
    let mut i: usize = 0;
    assert(evs.subrange(0, n as int) =~= evs);
    assert(wvs.subrange(0, n as int) =~= wvs);
    assert(r@ + fields_bytes(evs, wvs) =~= fields_bytes(evs, wvs));
    while i < n
        invariant
            n == es@.len(),
            evs == es@.map_values(|e: Vec<u8>| e@),
            wvs == ws@.map_values(|w: Option<usize>| width_of(w)),
            fields_fit(evs, wvs),
            i <= n,
            r@ + fields_bytes(evs.subrange(i as int, n as int), wvs.subrange(i as int, n as int)) == fields_bytes(evs, wvs),
        decreases n - i,
    {
        let ghost rest_e = evs.subrange(i as int, n as int);
        let ghost rest_w = wvs.subrange(i as int, n as int);
        assert(rest_e[0] == es@[i as int]@);
        assert(rest_w[0] == width_of(ws@[i as int]));
        assert(rest_e.drop_first() =~= evs.subrange(i + 1, n as int));
        assert(rest_w.drop_first() =~= wvs.subrange(i + 1, n as int));
        let e = &es[i];
        let last = i + 1 == n;
        match ws[i] {
            Some(_) => {},
            None => {
                if !last {
                    assert(evs[i as int].len() <= u32::MAX);
                    push_varint(&mut r, e.len());
                }
            },
        }
        append_bytes(&mut r, e.as_slice());
        proof {
            let fb = field_bytes(rest_e[0], rest_w[0], rest_e.len() == 1);
            assert(fields_bytes(rest_e, rest_w) == fb + fields_bytes(rest_e.drop_first(), rest_w.drop_first()));
            assert(r@ + fields_bytes(evs.subrange(i + 1, n as int), wvs.subrange(i + 1, n as int)) =~= fields_bytes(evs, wvs));
        }
        i = i + 1;
    }
    assert(evs.subrange(n as int, n as int) =~= Seq::<Seq<u8>>::empty());
    assert(r@ =~= fields_bytes(evs, wvs));
    r
}

/// Splits `data` into the fields of widths `ws`.
pub fn split_fields<'b>(data: &'b [u8], ws: &Vec<Option<usize>>) -> (r: Vec<&'b [u8]>)
    requires
        ws@.len() >= 1,
        field_chunks(data@, 0, ws@.map_values(|w: Option<usize>| width_of(w))) is Some,
    ensures
        r@.len() == ws@.len(),
        forall|i: int|
            0 <= i < r@.len() ==> (#[trigger] r@[i])@ == field_chunks(
                data@,
                0,
                ws@.map_values(|w: Option<usize>| width_of(w)),
            )->0[i],
{
    let ghost wvs = ws@.map_values(|w: Option<usize>| width_of(w));
    let ghost cs = field_chunks(data@, 0, wvs)->0;
    proof {
        lemma_field_chunks_len(data@, 0, wvs);
    }
    let n = ws.len();
    let dlen = data.len();
    let mut r: Vec<&'b [u8]> = Vec::new();
    let mut off: usize = 0;
    let mut i: usize = 0;
    assert(cs.subrange(0, n as int) =~= cs);
    assert(wvs.subrange(0, n as int) =~= wvs);
    while i + 1 < n
        invariant
            n == ws@.len(),
            n >= 1,
            dlen == data@.len(),
            wvs == ws@.map_values(|w: Option<usize>| width_of(w)),
            cs.len() == n,
            i < n,
            field_chunks(data@, off as int, wvs.subrange(i as int, n as int)) == Some(cs.subrange(i as int, n as int)),
            r@.len() == i,
            forall|k: int| 0 <= k < i ==> (#[trigger] r@[k])@ == cs[k],
        decreases n - i,
    {
        let ghost rw = wvs.subrange(i as int, n as int);
        assert(rw[0] == width_of(ws@[i as int]));
        assert(rw.drop_first() =~= wvs.subrange(i + 1, n as int));
        let ghost step = element_at(data@, off as int, rw[0]);
        assert(step is Some);
        let (start, len) = match ws[i] {
            Some(m) => (off, m),
            None => {
                let (l, hh) = read_varint(data, off);
                (off + hh, l)
            },
        };
        assert(step == Some((data@.subrange(start as int, start + len), start + len)));
        let chunk = slice_subrange(data, start, start + len);
        r.push(chunk);
        assert(cs.subrange(i as int, n as int)[0] == cs[i as int]);
        assert(cs.subrange(i + 1, n as int) =~= cs.subrange(i as int, n as int).drop_first());
        off = start + len;
        i = i + 1;
    }
    let ghost rw = wvs.subrange(i as int, n as int);
    assert(rw.len() == 1);
    let chunk = slice_subrange(data, off, dlen);
    r.push(chunk);
    assert(cs.subrange(i as int, n as int)[0] == cs[i as int]);
    r
}

/// The widths of the fields of a tuple of 1 field.
fn widths1<'a, A: Value<'a>>() -> (ws: Vec<Option<usize>>)
    ensures
        ws@.map_values(|w: Option<usize>| width_of(w)) == seq![A::width()],
{
    let mut ws: Vec<Option<usize>> = Vec::new();
    ws.push(A::fixed_width());
    assert(ws@.map_values(|w: Option<usize>| width_of(w)) =~= seq![A::width()]);
    ws
}

impl<'a, A: Value<'a>> Value<'a> for (A,) {
    open spec fn width() -> Option<nat> {
        match A::width() {
            Some(w0) => Some(w0),
            None => None,
        }
    }

    open spec fn encodable(value: (A,)) -> bool {
        A::encodable(value.0)
    }

    open spec fn encoding(value: (A,)) -> Seq<u8> {
        fields_bytes(seq![A::encoding(value.0)], seq![A::width()])
    }

    open spec fn decodes(data: Seq<u8>) -> bool {
        field_chunks(data, 0, seq![A::width()]) matches Some(cs) && A::decodes(cs[0])
    }

    open spec fn decodes_to(data: Seq<u8>, value: (A,)) -> bool {
        field_chunks(data, 0, seq![A::width()]) matches Some(cs) && A::decodes_to(cs[0], value.0)
    }

    open spec fn spec_type_name() -> Seq<char> {
        "("@ + A::spec_type_name() + ","@ + ")"@
    }

    fn fixed_width() -> (w: Option<usize>) {
        A::fixed_width()
    }

    fn from_bytes(data: &'a [u8]) -> (v: (A,)) {
        let ws = widths1::<A>();
        let parts = split_fields(data, &ws);
        (A::from_bytes(parts[0]),)
    }

    fn as_bytes(value: &(A,)) -> (b: Vec<u8>) {
        let ws = widths1::<A>();
        let mut es: Vec<Vec<u8>> = Vec::new();
        es.push(A::as_bytes(&value.0));
        proof {
            A::lemma_roundtrip(value.0);
            assert(es@.map_values(|e: Vec<u8>| e@) =~= seq![A::encoding(value.0)]);
        }
        join_fields(&es, &ws)
    }

    fn value_type_name() -> (t: TypeName) {
        let n0 = A::value_type_name();
        let mut name = String::from_str("(");
        name.append(n0.name());
        name.append(",");
        name.append(")");
        TypeName::internal(name.as_str())
    }

    proof fn lemma_roundtrip(value: (A,)) {
        A::lemma_roundtrip(value.0);
        reveal_with_fuel(fields_bytes, 2);
        let es = seq![A::encoding(value.0)];
        lemma_fields_whole(es, seq![A::width()]);
    }
}

impl<'a, A: Key<'a>> Key<'a> for (A,) {
    /// Field by field: the first field that differs decides.
    open spec fn key_order(data1: Seq<u8>, data2: Seq<u8>) -> Ordering {
        let c1 = field_chunks(data1, 0, seq![A::width()])->0;
        let c2 = field_chunks(data2, 0, seq![A::width()])->0;
        A::key_order(c1[0], c2[0])
    }

    /// Field by field: the first field that differs decides.
    open spec fn value_order(a: (A,), b: (A,)) -> Ordering {
        A::value_order(a.0, b.0)
    }

    proof fn lemma_order(a: (A,), b: (A,)) {
        A::lemma_roundtrip(a.0);
        A::lemma_roundtrip(b.0);
        A::lemma_order(a.0, b.0);
        lemma_fields_whole(seq![A::encoding(a.0)], seq![A::width()]);
        lemma_fields_whole(seq![A::encoding(b.0)], seq![A::width()]);
    }

    fn compare(data1: &[u8], data2: &[u8]) -> (o: Ordering) {
        let ws = widths1::<A>();
        let p1 = split_fields(data1, &ws);
        let p2 = split_fields(data2, &ws);
        A::compare(p1[0], p2[0])
    }
}

/// The widths of the fields of a tuple of 2 fields.
fn widths2<'a, A: Value<'a>, B: Value<'a>>() -> (ws: Vec<Option<usize>>)
    ensures
        ws@.map_values(|w: Option<usize>| width_of(w)) == seq![A::width(), B::width()],
{
    let mut ws: Vec<Option<usize>> = Vec::new();
    ws.push(A::fixed_width());
    ws.push(B::fixed_width());
    assert(ws@.map_values(|w: Option<usize>| width_of(w)) =~= seq![A::width(), B::width()]);
    ws
}

impl<'a, A: Value<'a>, B: Value<'a>> Value<'a> for (A, B) {
    open spec fn width() -> Option<nat> {
        match (A::width(), B::width()) {
            (Some(w0), Some(w1)) => if w0 + w1 <= usize::MAX {
                Some(w0 + w1)
            } else {
                None
            },
            _ => None,
        }
    }

    open spec fn encodable(value: (A, B)) -> bool {
        A::encodable(value.0) && B::encodable(value.1) && (A::width() is None ==> A::encoding(value.0).len() <= u32::MAX)
    }

    open spec fn encoding(value: (A, B)) -> Seq<u8> {
        fields_bytes(seq![A::encoding(value.0), B::encoding(value.1)], seq![A::width(), B::width()])
    }

    open spec fn decodes(data: Seq<u8>) -> bool {
        field_chunks(data, 0, seq![A::width(), B::width()]) matches Some(cs) && A::decodes(cs[0]) && B::decodes(cs[1])
    }

    open spec fn decodes_to(data: Seq<u8>, value: (A, B)) -> bool {
        field_chunks(data, 0, seq![A::width(), B::width()]) matches Some(cs) && A::decodes_to(cs[0], value.0) && B::decodes_to(cs[1], value.1)
    }

    open spec fn spec_type_name() -> Seq<char> {
        "("@ + A::spec_type_name() + ","@ + B::spec_type_name() + ")"@
    }

    fn fixed_width() -> (w: Option<usize>) {
        match (A::fixed_width(), B::fixed_width()) {
            (Some(w0), Some(w1)) => w0.checked_add(w1),
            _ => None,
        }
    }

    fn from_bytes(data: &'a [u8]) -> (v: (A, B)) {
        let ws = widths2::<A, B>();
        let parts = split_fields(data, &ws);
        (A::from_bytes(parts[0]), B::from_bytes(parts[1]))
    }

    fn as_bytes(value: &(A, B)) -> (b: Vec<u8>) {
        let ws = widths2::<A, B>();
        let mut es: Vec<Vec<u8>> = Vec::new();
        es.push(A::as_bytes(&value.0));
        es.push(B::as_bytes(&value.1));
        proof {
            A::lemma_roundtrip(value.0);
            B::lemma_roundtrip(value.1);
            assert(es@.map_values(|e: Vec<u8>| e@) =~= seq![A::encoding(value.0), B::encoding(value.1)]);
        }
        join_fields(&es, &ws)
    }

    fn value_type_name() -> (t: TypeName) {
        let n0 = A::value_type_name();
        let n1 = B::value_type_name();
        let mut name = String::from_str("(");
        name.append(n0.name());
        name.append(",");
        name.append(n1.name());
        name.append(")");
        TypeName::internal(name.as_str())
    }

    proof fn lemma_roundtrip(value: (A, B)) {
        A::lemma_roundtrip(value.0);
        B::lemma_roundtrip(value.1);
        reveal_with_fuel(fields_bytes, 3);
        let es = seq![A::encoding(value.0), B::encoding(value.1)];
        lemma_fields_whole(es, seq![A::width(), B::width()]);
    }
}

impl<'a, A: Key<'a>, B: Key<'a>> Key<'a> for (A, B) {
    /// Field by field: the first field that differs decides.
    open spec fn key_order(data1: Seq<u8>, data2: Seq<u8>) -> Ordering {
        let c1 = field_chunks(data1, 0, seq![A::width(), B::width()])->0;
        let c2 = field_chunks(data2, 0, seq![A::width(), B::width()])->0;
        then_order(A::key_order(c1[0], c2[0]), B::key_order(c1[1], c2[1]))
    }

    /// Field by field: the first field that differs decides.
    open spec fn value_order(a: (A, B), b: (A, B)) -> Ordering {
        then_order(A::value_order(a.0, b.0), B::value_order(a.1, b.1))
    }

    proof fn lemma_order(a: (A, B), b: (A, B)) {
        A::lemma_roundtrip(a.0);
        A::lemma_roundtrip(b.0);
        A::lemma_order(a.0, b.0);
        B::lemma_roundtrip(a.1);
        B::lemma_roundtrip(b.1);
        B::lemma_order(a.1, b.1);
        lemma_fields_whole(seq![A::encoding(a.0), B::encoding(a.1)], seq![A::width(), B::width()]);
        lemma_fields_whole(seq![A::encoding(b.0), B::encoding(b.1)], seq![A::width(), B::width()]);
    }

    fn compare(data1: &[u8], data2: &[u8]) -> (o: Ordering) {
        let ws = widths2::<A, B>();
        let p1 = split_fields(data1, &ws);
        let p2 = split_fields(data2, &ws);
        match A::compare(p1[0], p2[0]) {
            Ordering::Equal => B::compare(p1[1], p2[1]),
            o => o,
        }
    }
}

/// The widths of the fields of a tuple of 3 fields.
fn widths3<'a, A: Value<'a>, B: Value<'a>, C: Value<'a>>() -> (ws: Vec<Option<usize>>)
    ensures
        ws@.map_values(|w: Option<usize>| width_of(w)) == seq![A::width(), B::width(), C::width()],
{
    let mut ws: Vec<Option<usize>> = Vec::new();
    ws.push(A::fixed_width());
    ws.push(B::fixed_width());
    ws.push(C::fixed_width());
    assert(ws@.map_values(|w: Option<usize>| width_of(w)) =~= seq![A::width(), B::width(), C::width()]);
    ws
}

impl<'a, A: Value<'a>, B: Value<'a>, C: Value<'a>> Value<'a> for (A, B, C) {
    open spec fn width() -> Option<nat> {
        match (A::width(), B::width(), C::width()) {
            (Some(w0), Some(w1), Some(w2)) => if w0 + w1 + w2 <= usize::MAX {
                Some(w0 + w1 + w2)
            } else {
                None
            },
            _ => None,
        }
    }

    open spec fn encodable(value: (A, B, C)) -> bool {
        A::encodable(value.0) && B::encodable(value.1) && C::encodable(value.2) && (A::width() is None ==> A::encoding(value.0).len() <= u32::MAX) && (B::width() is None ==> B::encoding(value.1).len() <= u32::MAX)
    }

    open spec fn encoding(value: (A, B, C)) -> Seq<u8> {
        fields_bytes(seq![A::encoding(value.0), B::encoding(value.1), C::encoding(value.2)], seq![A::width(), B::width(), C::width()])
    }

    open spec fn decodes(data: Seq<u8>) -> bool {
        field_chunks(data, 0, seq![A::width(), B::width(), C::width()]) matches Some(cs) && A::decodes(cs[0]) && B::decodes(cs[1]) && C::decodes(cs[2])
    }

    open spec fn decodes_to(data: Seq<u8>, value: (A, B, C)) -> bool {
        field_chunks(data, 0, seq![A::width(), B::width(), C::width()]) matches Some(cs) && A::decodes_to(cs[0], value.0) && B::decodes_to(cs[1], value.1) && C::decodes_to(cs[2], value.2)
    }

    open spec fn spec_type_name() -> Seq<char> {
        "("@ + A::spec_type_name() + ","@ + B::spec_type_name() + ","@ + C::spec_type_name() + ")"@
    }

    fn fixed_width() -> (w: Option<usize>) {
        match (A::fixed_width(), B::fixed_width(), C::fixed_width()) {
            (Some(w0), Some(w1), Some(w2)) => match w0.checked_add(w1) {
                Some(s) => s.checked_add(w2),
                None => None,
            },
            _ => None,
        }
    }

    fn from_bytes(data: &'a [u8]) -> (v: (A, B, C)) {
        let ws = widths3::<A, B, C>();
        let parts = split_fields(data, &ws);
        (A::from_bytes(parts[0]), B::from_bytes(parts[1]), C::from_bytes(parts[2]))
    }

    fn as_bytes(value: &(A, B, C)) -> (b: Vec<u8>) {
        let ws = widths3::<A, B, C>();
        let mut es: Vec<Vec<u8>> = Vec::new();
        es.push(A::as_bytes(&value.0));
        es.push(B::as_bytes(&value.1));
        es.push(C::as_bytes(&value.2));
        proof {
            A::lemma_roundtrip(value.0);
            B::lemma_roundtrip(value.1);
            C::lemma_roundtrip(value.2);
            assert(es@.map_values(|e: Vec<u8>| e@) =~= seq![A::encoding(value.0), B::encoding(value.1), C::encoding(value.2)]);
        }
        join_fields(&es, &ws)
    }

    fn value_type_name() -> (t: TypeName) {
        let n0 = A::value_type_name();
        let n1 = B::value_type_name();
        let n2 = C::value_type_name();
        let mut name = String::from_str("(");
        name.append(n0.name());
        name.append(",");
        name.append(n1.name());
        name.append(",");
        name.append(n2.name());
        name.append(")");
        TypeName::internal(name.as_str())
    }

    proof fn lemma_roundtrip(value: (A, B, C)) {
        A::lemma_roundtrip(value.0);
        B::lemma_roundtrip(value.1);
        C::lemma_roundtrip(value.2);
        reveal_with_fuel(fields_bytes, 4);
        let es = seq![A::encoding(value.0), B::encoding(value.1), C::encoding(value.2)];
        lemma_fields_whole(es, seq![A::width(), B::width(), C::width()]);
    }
}

impl<'a, A: Key<'a>, B: Key<'a>, C: Key<'a>> Key<'a> for (A, B, C) {
    /// Field by field: the first field that differs decides.
    open spec fn key_order(data1: Seq<u8>, data2: Seq<u8>) -> Ordering {
        let c1 = field_chunks(data1, 0, seq![A::width(), B::width(), C::width()])->0;
        let c2 = field_chunks(data2, 0, seq![A::width(), B::width(), C::width()])->0;
        then_order(A::key_order(c1[0], c2[0]), then_order(B::key_order(c1[1], c2[1]), C::key_order(c1[2], c2[2])))
    }

    /// Field by field: the first field that differs decides.
    open spec fn value_order(a: (A, B, C), b: (A, B, C)) -> Ordering {
        then_order(A::value_order(a.0, b.0), then_order(B::value_order(a.1, b.1), C::value_order(a.2, b.2)))
    }

    proof fn lemma_order(a: (A, B, C), b: (A, B, C)) {
        A::lemma_roundtrip(a.0);
        A::lemma_roundtrip(b.0);
        A::lemma_order(a.0, b.0);
        B::lemma_roundtrip(a.1);
        B::lemma_roundtrip(b.1);
        B::lemma_order(a.1, b.1);
        C::lemma_roundtrip(a.2);
        C::lemma_roundtrip(b.2);
        C::lemma_order(a.2, b.2);
        lemma_fields_whole(seq![A::encoding(a.0), B::encoding(a.1), C::encoding(a.2)], seq![A::width(), B::width(), C::width()]);
        lemma_fields_whole(seq![A::encoding(b.0), B::encoding(b.1), C::encoding(b.2)], seq![A::width(), B::width(), C::width()]);
    }

    fn compare(data1: &[u8], data2: &[u8]) -> (o: Ordering) {
        let ws = widths3::<A, B, C>();
        let p1 = split_fields(data1, &ws);
        let p2 = split_fields(data2, &ws);
        match A::compare(p1[0], p2[0]) {
            Ordering::Equal => match B::compare(p1[1], p2[1]) {
            Ordering::Equal => C::compare(p1[2], p2[2]),
            o => o,
        },
            o => o,
        }
    }
}

/// The widths of the fields of a tuple of 4 fields.
fn widths4<'a, A: Value<'a>, B: Value<'a>, C: Value<'a>, D: Value<'a>>() -> (ws: Vec<Option<usize>>)
    ensures
        ws@.map_values(|w: Option<usize>| width_of(w)) == seq![A::width(), B::width(), C::width(), D::width()],
{
    let mut ws: Vec<Option<usize>> = Vec::new();
    ws.push(A::fixed_width());
    ws.push(B::fixed_width());
    ws.push(C::fixed_width());
    ws.push(D::fixed_width());
    assert(ws@.map_values(|w: Option<usize>| width_of(w)) =~= seq![A::width(), B::width(), C::width(), D::width()]);
    ws
}

impl<'a, A: Value<'a>, B: Value<'a>, C: Value<'a>, D: Value<'a>> Value<'a> for (A, B, C, D) {
    open spec fn width() -> Option<nat> {
        match (A::width(), B::width(), C::width(), D::width()) {
            (Some(w0), Some(w1), Some(w2), Some(w3)) => if w0 + w1 + w2 + w3 <= usize::MAX {
                Some(w0 + w1 + w2 + w3)
            } else {
                None
            },
            _ => None,
        }
    }

    open spec fn encodable(value: (A, B, C, D)) -> bool {
        A::encodable(value.0) && B::encodable(value.1) && C::encodable(value.2) && D::encodable(value.3) && (A::width() is None ==> A::encoding(value.0).len() <= u32::MAX) && (B::width() is None ==> B::encoding(value.1).len() <= u32::MAX) && (C::width() is None ==> C::encoding(value.2).len() <= u32::MAX)
    }

    open spec fn encoding(value: (A, B, C, D)) -> Seq<u8> {
        fields_bytes(seq![A::encoding(value.0), B::encoding(value.1), C::encoding(value.2), D::encoding(value.3)], seq![A::width(), B::width(), C::width(), D::width()])
    }

    open spec fn decodes(data: Seq<u8>) -> bool {
        field_chunks(data, 0, seq![A::width(), B::width(), C::width(), D::width()]) matches Some(cs) && A::decodes(cs[0]) && B::decodes(cs[1]) && C::decodes(cs[2]) && D::decodes(cs[3])
    }

    open spec fn decodes_to(data: Seq<u8>, value: (A, B, C, D)) -> bool {
        field_chunks(data, 0, seq![A::width(), B::width(), C::width(), D::width()]) matches Some(cs) && A::decodes_to(cs[0], value.0) && B::decodes_to(cs[1], value.1) && C::decodes_to(cs[2], value.2) && D::decodes_to(cs[3], value.3)
    }

    open spec fn spec_type_name() -> Seq<char> {
        "("@ + A::spec_type_name() + ","@ + B::spec_type_name() + ","@ + C::spec_type_name() + ","@ + D::spec_type_name() + ")"@
    }

    fn fixed_width() -> (w: Option<usize>) {
        match (A::fixed_width(), B::fixed_width(), C::fixed_width(), D::fixed_width()) {
            (Some(w0), Some(w1), Some(w2), Some(w3)) => match match w0.checked_add(w1) {
                Some(s) => s.checked_add(w2),
                None => None,
            } {
                Some(s) => s.checked_add(w3),
                None => None,
            },
            _ => None,
        }
    }

    fn from_bytes(data: &'a [u8]) -> (v: (A, B, C, D)) {
        let ws = widths4::<A, B, C, D>();
        let parts = split_fields(data, &ws);
        (A::from_bytes(parts[0]), B::from_bytes(parts[1]), C::from_bytes(parts[2]), D::from_bytes(parts[3]))
    }

    fn as_bytes(value: &(A, B, C, D)) -> (b: Vec<u8>) {
        let ws = widths4::<A, B, C, D>();
        let mut es: Vec<Vec<u8>> = Vec::new();
        es.push(A::as_bytes(&value.0));
        es.push(B::as_bytes(&value.1));
        es.push(C::as_bytes(&value.2));
        es.push(D::as_bytes(&value.3));
        proof {
            A::lemma_roundtrip(value.0);
            B::lemma_roundtrip(value.1);
            C::lemma_roundtrip(value.2);
            D::lemma_roundtrip(value.3);
            assert(es@.map_values(|e: Vec<u8>| e@) =~= seq![A::encoding(value.0), B::encoding(value.1), C::encoding(value.2), D::encoding(value.3)]);
        }
        join_fields(&es, &ws)
    }

    fn value_type_name() -> (t: TypeName) {
        let n0 = A::value_type_name();
        let n1 = B::value_type_name();
        let n2 = C::value_type_name();
        let n3 = D::value_type_name();
        let mut name = String::from_str("(");
        name.append(n0.name());
        name.append(",");
        name.append(n1.name());
        name.append(",");
        name.append(n2.name());
        name.append(",");
        name.append(n3.name());
        name.append(")");
        TypeName::internal(name.as_str())
    }

    proof fn lemma_roundtrip(value: (A, B, C, D)) {
        A::lemma_roundtrip(value.0);
        B::lemma_roundtrip(value.1);
        C::lemma_roundtrip(value.2);
        D::lemma_roundtrip(value.3);
        reveal_with_fuel(fields_bytes, 5);
        let es = seq![A::encoding(value.0), B::encoding(value.1), C::encoding(value.2), D::encoding(value.3)];
        lemma_fields_whole(es, seq![A::width(), B::width(), C::width(), D::width()]);
    }
}

impl<'a, A: Key<'a>, B: Key<'a>, C: Key<'a>, D: Key<'a>> Key<'a> for (A, B, C, D) {
    /// Field by field: the first field that differs decides.
    open spec fn key_order(data1: Seq<u8>, data2: Seq<u8>) -> Ordering {
        let c1 = field_chunks(data1, 0, seq![A::width(), B::width(), C::width(), D::width()])->0;
        let c2 = field_chunks(data2, 0, seq![A::width(), B::width(), C::width(), D::width()])->0;
        then_order(A::key_order(c1[0], c2[0]), then_order(B::key_order(c1[1], c2[1]), then_order(C::key_order(c1[2], c2[2]), D::key_order(c1[3], c2[3]))))
    }

    /// Field by field: the first field that differs decides.
    open spec fn value_order(a: (A, B, C, D), b: (A, B, C, D)) -> Ordering {
        then_order(A::value_order(a.0, b.0), then_order(B::value_order(a.1, b.1), then_order(C::value_order(a.2, b.2), D::value_order(a.3, b.3))))
    }

    proof fn lemma_order(a: (A, B, C, D), b: (A, B, C, D)) {
        A::lemma_roundtrip(a.0);
        A::lemma_roundtrip(b.0);
        A::lemma_order(a.0, b.0);
        B::lemma_roundtrip(a.1);
        B::lemma_roundtrip(b.1);
        B::lemma_order(a.1, b.1);
        C::lemma_roundtrip(a.2);
        C::lemma_roundtrip(b.2);
        C::lemma_order(a.2, b.2);
        D::lemma_roundtrip(a.3);
        D::lemma_roundtrip(b.3);
        D::lemma_order(a.3, b.3);
        lemma_fields_whole(seq![A::encoding(a.0), B::encoding(a.1), C::encoding(a.2), D::encoding(a.3)], seq![A::width(), B::width(), C::width(), D::width()]);
        lemma_fields_whole(seq![A::encoding(b.0), B::encoding(b.1), C::encoding(b.2), D::encoding(b.3)], seq![A::width(), B::width(), C::width(), D::width()]);
    }

    fn compare(data1: &[u8], data2: &[u8]) -> (o: Ordering) {
        let ws = widths4::<A, B, C, D>();
        let p1 = split_fields(data1, &ws);
        let p2 = split_fields(data2, &ws);
        match A::compare(p1[0], p2[0]) {
            Ordering::Equal => match B::compare(p1[1], p2[1]) {
            Ordering::Equal => match C::compare(p1[2], p2[2]) {
            Ordering::Equal => D::compare(p1[3], p2[3]),
            o => o,
        },
            o => o,
        },
            o => o,
        }
    }
}

/// The widths of the fields of a tuple of 5 fields.
fn widths5<'a, A: Value<'a>, B: Value<'a>, C: Value<'a>, D: Value<'a>, E: Value<'a>>() -> (ws: Vec<Option<usize>>)
    ensures
        ws@.map_values(|w: Option<usize>| width_of(w)) == seq![A::width(), B::width(), C::width(), D::width(), E::width()],
{
    let mut ws: Vec<Option<usize>> = Vec::new();
    ws.push(A::fixed_width());
    ws.push(B::fixed_width());
    ws.push(C::fixed_width());
    ws.push(D::fixed_width());
    ws.push(E::fixed_width());
    assert(ws@.map_values(|w: Option<usize>| width_of(w)) =~= seq![A::width(), B::width(), C::width(), D::width(), E::width()]);
    ws
}

impl<'a, A: Value<'a>, B: Value<'a>, C: Value<'a>, D: Value<'a>, E: Value<'a>> Value<'a> for (A, B, C, D, E) {
    open spec fn width() -> Option<nat> {
        match (A::width(), B::width(), C::width(), D::width(), E::width()) {
            (Some(w0), Some(w1), Some(w2), Some(w3), Some(w4)) => if w0 + w1 + w2 + w3 + w4 <= usize::MAX {
                Some(w0 + w1 + w2 + w3 + w4)
            } else {
                None
            },
            _ => None,
        }
    }

    open spec fn encodable(value: (A, B, C, D, E)) -> bool {
        A::encodable(value.0) && B::encodable(value.1) && C::encodable(value.2) && D::encodable(value.3) && E::encodable(value.4) && (A::width() is None ==> A::encoding(value.0).len() <= u32::MAX) && (B::width() is None ==> B::encoding(value.1).len() <= u32::MAX) && (C::width() is None ==> C::encoding(value.2).len() <= u32::MAX) && (D::width() is None ==> D::encoding(value.3).len() <= u32::MAX)
    }

    open spec fn encoding(value: (A, B, C, D, E)) -> Seq<u8> {
        fields_bytes(seq![A::encoding(value.0), B::encoding(value.1), C::encoding(value.2), D::encoding(value.3), E::encoding(value.4)], seq![A::width(), B::width(), C::width(), D::width(), E::width()])
    }

    open spec fn decodes(data: Seq<u8>) -> bool {
        field_chunks(data, 0, seq![A::width(), B::width(), C::width(), D::width(), E::width()]) matches Some(cs) && A::decodes(cs[0]) && B::decodes(cs[1]) && C::decodes(cs[2]) && D::decodes(cs[3]) && E::decodes(cs[4])
    }

    open spec fn decodes_to(data: Seq<u8>, value: (A, B, C, D, E)) -> bool {
        field_chunks(data, 0, seq![A::width(), B::width(), C::width(), D::width(), E::width()]) matches Some(cs) && A::decodes_to(cs[0], value.0) && B::decodes_to(cs[1], value.1) && C::decodes_to(cs[2], value.2) && D::decodes_to(cs[3], value.3) && E::decodes_to(cs[4], value.4)
    }

    open spec fn spec_type_name() -> Seq<char> {
        "("@ + A::spec_type_name() + ","@ + B::spec_type_name() + ","@ + C::spec_type_name() + ","@ + D::spec_type_name() + ","@ + E::spec_type_name() + ")"@
    }

    fn fixed_width() -> (w: Option<usize>) {
        match (A::fixed_width(), B::fixed_width(), C::fixed_width(), D::fixed_width(), E::fixed_width()) {
            (Some(w0), Some(w1), Some(w2), Some(w3), Some(w4)) => match match match w0.checked_add(w1) {
                Some(s) => s.checked_add(w2),
                None => None,
            } {
                Some(s) => s.checked_add(w3),
                None => None,
            } {
                Some(s) => s.checked_add(w4),
                None => None,
            },
            _ => None,
        }
    }

    fn from_bytes(data: &'a [u8]) -> (v: (A, B, C, D, E)) {
        let ws = widths5::<A, B, C, D, E>();
        let parts = split_fields(data, &ws);
        (A::from_bytes(parts[0]), B::from_bytes(parts[1]), C::from_bytes(parts[2]), D::from_bytes(parts[3]), E::from_bytes(parts[4]))
    }

    fn as_bytes(value: &(A, B, C, D, E)) -> (b: Vec<u8>) {
        let ws = widths5::<A, B, C, D, E>();
        let mut es: Vec<Vec<u8>> = Vec::new();
        es.push(A::as_bytes(&value.0));
        es.push(B::as_bytes(&value.1));
        es.push(C::as_bytes(&value.2));
        es.push(D::as_bytes(&value.3));
        es.push(E::as_bytes(&value.4));
        proof {
            A::lemma_roundtrip(value.0);
            B::lemma_roundtrip(value.1);
            C::lemma_roundtrip(value.2);
            D::lemma_roundtrip(value.3);
            E::lemma_roundtrip(value.4);
            assert(es@.map_values(|e: Vec<u8>| e@) =~= seq![A::encoding(value.0), B::encoding(value.1), C::encoding(value.2), D::encoding(value.3), E::encoding(value.4)]);
        }
        join_fields(&es, &ws)
    }

    fn value_type_name() -> (t: TypeName) {
        let n0 = A::value_type_name();
        let n1 = B::value_type_name();
        let n2 = C::value_type_name();
        let n3 = D::value_type_name();
        let n4 = E::value_type_name();
        let mut name = String::from_str("(");
        name.append(n0.name());
        name.append(",");
        name.append(n1.name());
        name.append(",");
        name.append(n2.name());
        name.append(",");
        name.append(n3.name());
        name.append(",");
        name.append(n4.name());
        name.append(")");
        TypeName::internal(name.as_str())
    }

    proof fn lemma_roundtrip(value: (A, B, C, D, E)) {
        A::lemma_roundtrip(value.0);
        B::lemma_roundtrip(value.1);
        C::lemma_roundtrip(value.2);
        D::lemma_roundtrip(value.3);
        E::lemma_roundtrip(value.4);
        reveal_with_fuel(fields_bytes, 6);
        let es = seq![A::encoding(value.0), B::encoding(value.1), C::encoding(value.2), D::encoding(value.3), E::encoding(value.4)];
        lemma_fields_whole(es, seq![A::width(), B::width(), C::width(), D::width(), E::width()]);
    }
}

impl<'a, A: Key<'a>, B: Key<'a>, C: Key<'a>, D: Key<'a>, E: Key<'a>> Key<'a> for (A, B, C, D, E) {
    /// Field by field: the first field that differs decides.
    open spec fn key_order(data1: Seq<u8>, data2: Seq<u8>) -> Ordering {
        let c1 = field_chunks(data1, 0, seq![A::width(), B::width(), C::width(), D::width(), E::width()])->0;
        let c2 = field_chunks(data2, 0, seq![A::width(), B::width(), C::width(), D::width(), E::width()])->0;
        then_order(A::key_order(c1[0], c2[0]), then_order(B::key_order(c1[1], c2[1]), then_order(C::key_order(c1[2], c2[2]), then_order(D::key_order(c1[3], c2[3]), E::key_order(c1[4], c2[4])))))
    }

    /// Field by field: the first field that differs decides.
    open spec fn value_order(a: (A, B, C, D, E), b: (A, B, C, D, E)) -> Ordering {
        then_order(A::value_order(a.0, b.0), then_order(B::value_order(a.1, b.1), then_order(C::value_order(a.2, b.2), then_order(D::value_order(a.3, b.3), E::value_order(a.4, b.4)))))
    }

    proof fn lemma_order(a: (A, B, C, D, E), b: (A, B, C, D, E)) {
        A::lemma_roundtrip(a.0);
        A::lemma_roundtrip(b.0);
        A::lemma_order(a.0, b.0);
        B::lemma_roundtrip(a.1);
        B::lemma_roundtrip(b.1);
        B::lemma_order(a.1, b.1);
        C::lemma_roundtrip(a.2);
        C::lemma_roundtrip(b.2);
        C::lemma_order(a.2, b.2);
        D::lemma_roundtrip(a.3);
        D::lemma_roundtrip(b.3);
        D::lemma_order(a.3, b.3);
        E::lemma_roundtrip(a.4);
        E::lemma_roundtrip(b.4);
        E::lemma_order(a.4, b.4);
        lemma_fields_whole(seq![A::encoding(a.0), B::encoding(a.1), C::encoding(a.2), D::encoding(a.3), E::encoding(a.4)], seq![A::width(), B::width(), C::width(), D::width(), E::width()]);
        lemma_fields_whole(seq![A::encoding(b.0), B::encoding(b.1), C::encoding(b.2), D::encoding(b.3), E::encoding(b.4)], seq![A::width(), B::width(), C::width(), D::width(), E::width()]);
    }

    fn compare(data1: &[u8], data2: &[u8]) -> (o: Ordering) {
        let ws = widths5::<A, B, C, D, E>();
        let p1 = split_fields(data1, &ws);
        let p2 = split_fields(data2, &ws);
        match A::compare(p1[0], p2[0]) {
            Ordering::Equal => match B::compare(p1[1], p2[1]) {
            Ordering::Equal => match C::compare(p1[2], p2[2]) {
            Ordering::Equal => match D::compare(p1[3], p2[3]) {
            Ordering::Equal => E::compare(p1[4], p2[4]),
            o => o,
        },
            o => o,
        },
            o => o,
        },
            o => o,
        }
    }
}


} // verus!
