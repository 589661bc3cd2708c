use vstd::prelude::*;

verus! {

/// A 128-bit identifier.
#[derive(Clone, Copy, Debug, PartialEq, Eq, Default)]
pub struct Uuid {
    pub bytes: [u8; 16],
}

/// The container that sits at the root of a viewport.
#[derive(Clone, Copy, Debug, PartialEq, Eq, Default)]
pub struct RootContainer(pub Uuid);

/// Why a column could not be read back.
#[derive(Clone, Copy, Debug, PartialEq, Eq)]
pub enum DeserializationError {
    /// The byte count is no multiple of the width of one element.
    BadLength { len: usize },
    /// The element at `index` is null, where every element is required.
    MissingData { index: usize },
}

/// Bytes per element in a column: one validity byte, then the 16 bytes of
/// the identifier.
pub const ELEMENT_WIDTH: usize = 17;

pub open spec fn uuid_bytes(u: Uuid) -> Seq<u8> {
    u.bytes@
}

/// The encoding of one optional element.
pub open spec fn element_spec(o: Option<RootContainer>) -> Seq<u8> {
    match o {
        Some(r) => seq![1u8] + uuid_bytes(r.0),
        None => Seq::new(17, |i: int| 0u8),
    }
}

/// The encoding of a column of optional elements.
pub open spec fn column_spec(data: Seq<Option<RootContainer>>) -> Seq<u8>
    decreases data.len(),
{
    if data.len() == 0 {
        seq![]
    } else {
        column_spec(data.drop_last()) + element_spec(data.last())
    }
}

impl From<Uuid> for RootContainer {
    fn from(v: Uuid) -> (r: RootContainer)
        ensures
            r.0 == v,
    {
        RootContainer(v)
    }
}

impl vstd::std_specs::convert::FromSpecImpl<Uuid> for RootContainer {
    open spec fn obeys_from_spec() -> bool {
        true
    }

    open spec fn from_spec(v: Uuid) -> RootContainer {
        RootContainer(v)
    }
}

impl RootContainer {
    /// The component's name.
    pub fn name() -> (r: &'static str)
        ensures
            r@ == "rerun.blueprint.components.RootContainer"@,
    {
        "rerun.blueprint.components.RootContainer"
    }

    pub fn borrow(&self) -> (r: &Uuid)
        ensures
            *r == self.0,
    {
        &self.0
    }

    pub fn deref(&self) -> (r: &Uuid)
        ensures
            *r == self.0,
    {
        &self.0
    }

    /// Encodes a column of optional root containers, one element after the
    /// other.
    pub fn to_column_opt(data: &Vec<Option<RootContainer>>) -> (r: Vec<u8>)
        ensures
            r@ == column_spec(data@),
    {
        let mut out: Vec<u8> = Vec::new();
        let mut i: usize = 0;
        while i < data.len()
            invariant
                i <= data@.len(),
                out@ == column_spec(data@.subrange(0, i as int)),
            decreases data@.len() - i,
        {
            let ghost before = out@;
            match data[i] {
                Some(rc) => {
                    out.push(1u8);
                    let mut k: usize = 0;
                    while k < 16
                        invariant
                            k <= 16,
                            out@ == before + seq![1u8] + rc.0.bytes@.subrange(0, k as int),
                        decreases 16 - k,
                    {
                        out.push(rc.0.bytes[k]);
                        k += 1;
                        assert(out@ =~= before + seq![1u8] + rc.0.bytes@.subrange(0, k as int));
                    }
                    assert(rc.0.bytes@.subrange(0, 16) =~= rc.0.bytes@);
                },
                None => {
                    let mut k: usize = 0;
                    while k < 17
                        invariant
                            k <= 17,
                            out@ == before + Seq::new(k as nat, |j: int| 0u8),
                        decreases 17 - k,
                    {
                        out.push(0u8);
                        k += 1;
                        assert(out@ =~= before + Seq::new(k as nat, |j: int| 0u8));
                    }
                },
            }
            assert(data@.subrange(0, i + 1).drop_last() =~= data@.subrange(0, i as int));
            i += 1;
            assert(out@ =~= column_spec(data@.subrange(0, i as int)));
        }
        assert(data@.subrange(0, i as int) =~= data@);
        out
    }

    /// Reads a column back. Fails where its length is no multiple of the
    /// element width, or where an element is null (its validity byte is
    /// zero): then at the first such element.
    pub fn from_column_opt(bytes: &Vec<u8>) -> (r: Result<Vec<Option<RootContainer>>, DeserializationError>)
        ensures
            bytes@.len() % 17 != 0 ==> r == Err::<Vec<Option<RootContainer>>, DeserializationError>(DeserializationError::BadLength { len: bytes@.len() as usize }),
            bytes@.len() % 17 == 0 ==> match r {
                Ok(v) => v@.len() == bytes@.len() / 17 && forall|i: int| 0 <= i < v@.len() ==> #[trigger] present_at(bytes@, i)
                    && v@[i] == Some(RootContainer(Uuid { bytes: v@[i]->Some_0.0.bytes })) && v@[i]->Some_0.0.bytes@ == id_at(bytes@, i),
                Err(e) => match e {
                    DeserializationError::MissingData { index } => index < bytes@.len() / 17 && !present_at(bytes@, index as int)
                        && forall|k: int| 0 <= k < index ==> #[trigger] present_at(bytes@, k),
                    DeserializationError::BadLength { .. } => false,
                },
            },
    {
        if bytes.len() % 17 != 0 {
            return Err(DeserializationError::BadLength { len: bytes.len() });
        }
        let n = bytes.len() / 17;
        let mut out: Vec<Option<RootContainer>> = Vec::new();
        let mut i: usize = 0;
        while i < n
            invariant
                n == bytes@.len() / 17,
                bytes@.len() % 17 == 0,
                i <= n,
                out@.len() == i,
                forall|k: int| 0 <= k < i ==> #[trigger] present_at(bytes@, k)
                    && out@[k] == Some(RootContainer(Uuid { bytes: out@[k]->Some_0.0.bytes })) && out@[k]->Some_0.0.bytes@ == id_at(bytes@, k),
            decreases n - i,
        {
            let len = bytes.len();
            assert(17 * i + 17 <= len) by (nonlinear_arith)
                requires
                    i < n,
                    n == len / 17,
                    len % 17 == 0;
            let base = 17 * i;
            if bytes[base] == 0 {
                return Err(DeserializationError::MissingData { index: i });
            }
            let mut id = [0u8; 16];
            let mut k: usize = 0;
            while k < 16
                invariant
                    k <= 16,
                    base == 17 * i,
                    i < n,
                    n == bytes@.len() / 17,
                    base + 17 <= bytes@.len(),
                    len == bytes@.len(),
                    id@.len() == 16,
                    forall|j: int| 0 <= j < k ==> id@[j] == bytes@[base + 1 + j],
                decreases 16 - k,
            {
                id[k] = bytes[base + 1 + k];
                k += 1;
            }
            assert(id@ =~= id_at(bytes@, i as int));
            let ghost before = out@;
            out.push(Some(RootContainer(Uuid { bytes: id })));
            proof {
                assert(present_at(bytes@, i as int));
                assert forall|k: int| 0 <= k < i + 1 implies #[trigger] present_at(bytes@, k)
                    && out@[k] == Some(RootContainer(Uuid { bytes: out@[k]->Some_0.0.bytes })) && out@[k]->Some_0.0.bytes@ == id_at(bytes@, k) by {
                    if k < i {
                        assert(out@[k] == before[k]);
                    }
                }
            }
            i += 1;
        }
        Ok(out)
    }
}

/// The validity byte of element `i` is set.
pub open spec fn present_at(bytes: Seq<u8>, i: int) -> bool {
    bytes[17 * i] != 0
}

/// The identifier bytes of element `i`.
pub open spec fn id_at(bytes: Seq<u8>, i: int) -> Seq<u8> {
    bytes.subrange(17 * i + 1, 17 * i + 17)
}

/// Element `i` of column `col` is present and holds the identifier of
/// `data[i]`.
pub open spec fn element_read_back(col: Seq<u8>, data: Seq<Option<RootContainer>>, i: int) -> bool {
    present_at(col, i) && data[i] is Some && id_at(col, i) == data[i]->Some_0.0.bytes@
}

/// Reading back a column written from present elements finds every element
/// present, with its identifier: the two directions are inverse.
pub proof fn lemma_column_round_trip(data: Seq<Option<RootContainer>>)
    requires
        forall|i: int| 0 <= i < data.len() ==> (#[trigger] data[i]) is Some,
    ensures
        column_spec(data).len() == 17 * data.len(),
        column_spec(data).len() % 17 == 0,
        column_spec(data).len() / 17 == data.len(),
        forall|i: int| 0 <= i < data.len() ==> #[trigger] element_read_back(column_spec(data), data, i),
    decreases data.len(),
{
    if data.len() > 0 {
        let init = data.drop_last();
        let n = data.len() - 1;
        assert forall|i: int| 0 <= i < init.len() implies (#[trigger] init[i]) is Some by {
            assert(init[i] == data[i]);
        }
        lemma_column_round_trip(init);
        assert forall|i: int| 0 <= i < init.len() implies present_at(column_spec(init), i)
            && id_at(column_spec(init), i) == init[i]->Some_0.0.bytes@ by {
            assert(element_read_back(column_spec(init), init, i));
        }
        let prev = column_spec(init);
        let col = column_spec(data);
        assert(data.last() is Some);
        let last = element_spec(data.last());
        assert(last.len() == 17);
        assert(col == prev + last);
        assert forall|i: int| 0 <= i < data.len() implies #[trigger] element_read_back(col, data, i) by {
            if i < n {
                assert(init[i] == data[i]);
                assert(present_at(prev, i));
                assert(17 * i + 17 <= 17 * n) by (nonlinear_arith)
                    requires
                        i < n;
                assert(col[17 * i] == prev[17 * i]);
                assert(id_at(col, i) =~= id_at(prev, i));
            } else {
                assert(17 * i == prev.len());
                assert(col[17 * i] == last[0]);
                assert(id_at(col, i) =~= last.subrange(1, 17));
                assert(last.subrange(1, 17) =~= data[i]->Some_0.0.bytes@);
            }
        }
    }
}

} // verus!
