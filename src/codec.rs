use vstd::prelude::*;

verus! {

/// How the encoded bytes of a component decode into a typed column.
#[derive(Clone, Copy, Debug, PartialEq, Eq)]
pub enum ColumnCodec {
    /// The bytes themselves.
    Bytes,
    /// Little-endian 32-bit signed integers, four bytes each.
    I32,
}

/// A decoded column.
pub enum ColumnData {
    Bytes(Vec<u8>),
    I32(Vec<i32>),
}

pub ghost enum ColumnDataView {
    Bytes(Seq<u8>),
    I32(Seq<i32>),
}

impl View for ColumnData {
    type V = ColumnDataView;

    open spec fn view(&self) -> ColumnDataView {
        match self {
            ColumnData::Bytes(b) => ColumnDataView::Bytes(b@),
            ColumnData::I32(v) => ColumnDataView::I32(v@),
        }
    }
}

#[derive(Clone, Copy, Debug, PartialEq, Eq)]
pub enum DecodeError {
    /// The byte count is no multiple of the element width.
    BadLength { len: usize, width: usize },
}

/// The unsigned value of the four bytes of `b` from `4 * i`, least
/// significant first.
pub open spec fn word_le(b: Seq<u8>, i: int) -> int {
    b[4 * i] as int + b[4 * i + 1] as int * 256 + b[4 * i + 2] as int * 65536 + b[4 * i + 3] as int * 16777216
}

/// The signed value of a 32-bit word.
pub open spec fn signed_of(w: int) -> i32 {
    if w < 0x8000_0000 {
        w as i32
    } else {
        (w - 0x1_0000_0000) as i32
    }
}

pub open spec fn decode_spec(codec: ColumnCodec, b: Seq<u8>) -> Result<ColumnDataView, DecodeError> {
    match codec {
        ColumnCodec::Bytes => Ok(ColumnDataView::Bytes(b)),
        ColumnCodec::I32 => if b.len() % 4 != 0 {
            Err(DecodeError::BadLength { len: b.len() as usize, width: 4 })
        } else {
            Ok(ColumnDataView::I32(Seq::new((b.len() / 4) as nat, |i: int| signed_of(word_le(b, i)))))
        },
    }
}

pub open spec fn decoded_view(r: Result<ColumnData, DecodeError>) -> Result<ColumnDataView, DecodeError> {
    match r {
        Ok(d) => Ok(d@),
        Err(e) => Err(e),
    }
}

fn read_i32(b: &Vec<u8>, i: usize) -> (r: i32)
    requires
        4 * i + 3 < b@.len(),
    ensures
        r == signed_of(word_le(b@, i as int)),
{
    let len = b.len();
    assert(4 * i + 3 < len);
    let w: u32 = b[4 * i] as u32 + b[4 * i + 1] as u32 * 256 + b[4 * i + 2] as u32 * 65536 + b[4 * i + 3] as u32 * 16777216;
    if w < 0x8000_0000 {
        w as i32
    } else {
        let v: i64 = w as i64 - 0x1_0000_0000i64;
        v as i32
    }
}

/// Decodes `bytes` with `codec`.
pub fn decode(codec: ColumnCodec, bytes: &Vec<u8>) -> (r: Result<ColumnData, DecodeError>)
    ensures
        decoded_view(r) == decode_spec(codec, bytes@),
{
    match codec {
        ColumnCodec::Bytes => Ok(ColumnData::Bytes(bytes.clone())),
        ColumnCodec::I32 => {
            if bytes.len() % 4 != 0 {
                return Err(DecodeError::BadLength { len: bytes.len(), width: 4 });
            }
            let n = bytes.len() / 4;
            let mut out: Vec<i32> = Vec::new();
            let mut i: usize = 0;
            while i < n
                invariant
                    n == bytes@.len() / 4,
                    bytes@.len() % 4 == 0,
                    i <= n,
                    out@.len() == i,
                    forall|k: int| 0 <= k < i ==> out@[k] == signed_of(word_le(bytes@, k)),
                decreases n - i,
            {
                out.push(read_i32(bytes, i));
                i += 1;
            }
            assert(out@ =~= Seq::new((bytes@.len() / 4) as nat, |k: int| signed_of(word_le(bytes@, k))));
            Ok(ColumnData::I32(out))
        },
    }
}

/// Encodes `values` as four little-endian bytes each.
pub fn encode_i32(values: &Vec<i32>) -> (r: Vec<u8>)
    ensures
        r@.len() == 4 * values@.len(),
        forall|k: int| 0 <= k < values@.len() ==> signed_of(#[trigger] word_le(r@, k)) == values@[k],
{
    let mut out: Vec<u8> = Vec::new();
    let mut i: usize = 0;
    while i < values.len()
        invariant
            i <= values@.len(),
            out@.len() == 4 * i,
            forall|k: int| 0 <= k < i ==> signed_of(#[trigger] word_le(out@, k)) == values@[k],
        decreases values@.len() - i,
    {
        let v = values[i];
        let w: u32 = if v >= 0 { v as u32 } else { (v as i64 + 0x1_0000_0000i64) as u32 };
        let b0 = (w % 256) as u8;
        let b1 = ((w / 256) % 256) as u8;
        let b2 = ((w / 65536) % 256) as u8;
        let b3 = (w / 16777216) as u8;
        assert(b0 as int + b1 as int * 256 + b2 as int * 65536 + b3 as int * 16777216 == w as int) by (nonlinear_arith)
            requires
                b0 as int == w as int % 256,
                b1 as int == (w as int / 256) % 256,
                b2 as int == (w as int / 65536) % 256,
                b3 as int == w as int / 16777216,
                w as int <= 0xffff_ffff;
        let ghost before = out@;
        out.push(b0);
        out.push(b1);
        out.push(b2);
        out.push(b3);
        proof {
            assert forall|k: int| 0 <= k < i + 1 implies signed_of(#[trigger] word_le(out@, k)) == values@[k] by {
                if k < i {
                    assert(word_le(out@, k) == word_le(before, k));
                } else {
                    assert(word_le(out@, k) == w as int);
                }
            }
        }
        i += 1;
    }
    out
}

/// Decoding what `encode_i32` wrote gives the values back.
pub proof fn lemma_i32_round_trip(values: Seq<i32>, bytes: Seq<u8>)
    requires
        bytes.len() == 4 * values.len(),
        forall|k: int| 0 <= k < values.len() ==> signed_of(#[trigger] word_le(bytes, k)) == values[k],
    ensures
        decode_spec(ColumnCodec::I32, bytes) == Ok::<ColumnDataView, DecodeError>(ColumnDataView::I32(values)),
{
    assert(Seq::new((bytes.len() / 4) as nat, |i: int| signed_of(word_le(bytes, i))) =~= values);
}

/// Maps component names to the codec that decodes them; a later entry for a
/// name replaces an earlier one.
pub struct CodecRegistry {
    pub entries: Vec<(String, ColumnCodec)>,
}

pub open spec fn codec_in(entries: Seq<(String, ColumnCodec)>, component: Seq<char>) -> Option<ColumnCodec>
    decreases entries.len(),
{
    if entries.len() == 0 {
        None
    } else if entries.last().0@ == component {
        Some(entries.last().1)
    } else {
        codec_in(entries.drop_last(), component)
    }
}

impl CodecRegistry {
    pub open spec fn codec_for(&self, component: Seq<char>) -> Option<ColumnCodec> {
        codec_in(self.entries@, component)
    }

    pub fn new() -> (r: CodecRegistry)
        ensures
            forall|c: Seq<char>| #[trigger] r.codec_for(c).is_none(),
    {
        CodecRegistry { entries: Vec::new() }
    }

    pub fn register(&mut self, component: String, codec: ColumnCodec)
        ensures
            final(self).codec_for(component@) == Some(codec),
            forall|c: Seq<char>| c != component@ ==> #[trigger] final(self).codec_for(c) == old(self).codec_for(c),
    {
        let ghost before = self.entries@;
        self.entries.push((component, codec));
        assert(self.entries@.drop_last() =~= before);
    }

    pub fn lookup(&self, component: &String) -> (r: Option<ColumnCodec>)
        ensures
            r == self.codec_for(component@),
    {
        let mut i: usize = self.entries.len();
        assert(self.entries@.subrange(0, i as int) =~= self.entries@);
        while i > 0
            invariant
                i <= self.entries@.len(),
                self.codec_for(component@) == codec_in(self.entries@.subrange(0, i as int), component@),
            decreases i,
        {
            assert(self.entries@.subrange(0, i as int).drop_last() =~= self.entries@.subrange(0, i - 1));
            if self.entries[i - 1].0 == *component {
                return Some(self.entries[i - 1].1);
            }
            i -= 1;
        }
        None
    }
}

} // verus!
