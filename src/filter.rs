use vstd::prelude::*;
use crate::codec::{ColumnCodec, ColumnData, decode, decoded_view, signed_of, word_le};
use crate::store::StoreEvent;

verus! {

/// Cell `j` of `ev` is for `component` and decodes as 32-bit integers, of
/// which there are more than `k`.
pub open spec fn i32_cell_value(ev: StoreEvent, component: Seq<char>, j: int, k: int) -> bool {
    &&& 0 <= j < ev.cells@.len()
    &&& ev.cells@[j].component@ == component
    &&& ev.cells@[j].bytes@.len() % 4 == 0
    &&& 0 <= k < ev.cells@[j].bytes@.len() / 4
}

/// Whether `event` carries a cell for `component` whose values, decoded as
/// 32-bit integers, include one that `filter` accepts. A cell that does not
/// decode accepts nothing.
pub fn diff_component_filter<F: Fn(i32) -> bool>(event: &StoreEvent, component: &String, filter: F) -> (r: bool)
    requires
        forall|x: i32| filter.requires((x,)),
    ensures
        r ==> exists|j: int, k: int| #[trigger] i32_cell_value(*event, component@, j, k)
            && filter.ensures((signed_of(word_le(event.cells@[j].bytes@, k)),), true),
        !r ==> forall|j: int, k: int| #[trigger] i32_cell_value(*event, component@, j, k)
            ==> filter.ensures((signed_of(word_le(event.cells@[j].bytes@, k)),), false),
{
    let mut j: usize = 0;
    while j < event.cells.len()
        invariant
            forall|x: i32| filter.requires((x,)),
            j <= event.cells@.len(),
            forall|jj: int, k: int| 0 <= jj < j && #[trigger] i32_cell_value(*event, component@, jj, k)
                ==> filter.ensures((signed_of(word_le(event.cells@[jj].bytes@, k)),), false),
        decreases event.cells@.len() - j,
    {
        if event.cells[j].component == *component {
            let d = decode(ColumnCodec::I32, &event.cells[j].bytes);
            match d {
                Ok(ColumnData::I32(values)) => {
                    let ghost b = event.cells@[j as int].bytes@;
                    assert(values@ =~= Seq::new((b.len() / 4) as nat, |i: int| signed_of(word_le(b, i))));
                    let mut k: usize = 0;
                    while k < values.len()
                        invariant
                            forall|x: i32| filter.requires((x,)),
                            j < event.cells@.len(),
                            b == event.cells@[j as int].bytes@,
                            event.cells@[j as int].component@ == component@,
                            b.len() % 4 == 0,
                            values@ == Seq::new((b.len() / 4) as nat, |i: int| signed_of(word_le(b, i))),
                            k <= values@.len(),
                            forall|kk: int| 0 <= kk < k ==> filter.ensures((signed_of(word_le(b, kk)),), false),
                        decreases values@.len() - k,
                    {
                        let v = values[k];
                        if filter(v) {
                            assert(i32_cell_value(*event, component@, j as int, k as int));
                            return true;
                        }
                        k += 1;
                    }
                },
                _ => {
                    assert(decoded_view(d) is Err);
                },
            }
        }
        j += 1;
    }
    false
}

} // verus!
