use vstd::prelude::*;

verus! {

/// One row's batch of values for one component, still encoded.
pub struct DataCell {
    pub component: String,
    pub bytes: Vec<u8>,
}

/// What a cell holds: its component's name and its encoded bytes.
pub ghost struct CellView {
    pub component: Seq<char>,
    pub bytes: Seq<u8>,
}

impl View for DataCell {
    type V = CellView;

    open spec fn view(&self) -> CellView {
        CellView { component: self.component@, bytes: self.bytes@ }
    }
}

pub open spec fn cells_view(cells: Seq<DataCell>) -> Seq<CellView> {
    cells.map_values(|c: DataCell| c@)
}

/// The bytes of the cell for `component`; where a row carries several cells
/// of one component, the last one counts.
pub open spec fn cell_for(cells: Seq<CellView>, component: Seq<char>) -> Option<Seq<u8>>
    decreases cells.len(),
{
    if cells.len() == 0 {
        None
    } else if cells.last().component == component {
        Some(cells.last().bytes)
    } else {
        cell_for(cells.drop_last(), component)
    }
}

/// Total number of encoded bytes in `cells`.
pub open spec fn cells_size(cells: Seq<CellView>) -> nat
    decreases cells.len(),
{
    if cells.len() == 0 {
        0
    } else {
        cells_size(cells.drop_last()) + cells.last().bytes.len()
    }
}

/// A cell for `component` is present exactly when some cell names it.
pub proof fn lemma_cell_for_some(cells: Seq<CellView>, component: Seq<char>)
    ensures
        cell_for(cells, component).is_some() <==> exists|j: int|
            0 <= j < cells.len() && cells[j].component == component,
    decreases cells.len(),
{
    if cells.len() > 0 {
        lemma_cell_for_some(cells.drop_last(), component);
        if cells.last().component != component {
            assert forall|j: int| 0 <= j < cells.len() && cells[j].component == component implies
                0 <= j < cells.len() - 1 && cells.drop_last()[j].component == component by {}
        }
    }
}

impl DataCell {
    pub fn new(component: String, bytes: Vec<u8>) -> (r: DataCell)
        ensures
            r.component@ == component@,
            r.bytes@ == bytes@,
    {
        DataCell { component, bytes }
    }

    pub fn duplicate(&self) -> (r: DataCell)
        ensures
            r@ == self@,
    {
        DataCell { component: self.component.clone(), bytes: self.bytes.clone() }
    }
}

pub fn clone_cells(cells: &Vec<DataCell>) -> (r: Vec<DataCell>)
    ensures
        cells_view(r@) == cells_view(cells@),
{
    let mut r: Vec<DataCell> = Vec::new();
    let mut i: usize = 0;
    while i < cells.len()
        invariant
            i <= cells@.len(),
            r@.len() == i,
            forall|k: int| 0 <= k < i ==> r@[k]@ == cells@[k]@,
        decreases cells@.len() - i,
    {
        r.push(cells[i].duplicate());
        i += 1;
    }
    assert(cells_view(r@) =~= cells_view(cells@));
    r
}

/// Looks up the cell for `component`, the last one where several match.
pub fn find_cell(cells: &Vec<DataCell>, component: &String) -> (r: Option<Vec<u8>>)
    ensures
        match r {
            Some(b) => cell_for(cells_view(cells@), component@) == Some(b@),
            None => cell_for(cells_view(cells@), component@).is_none(),
        },
{
    let mut i: usize = cells.len();
    assert(cells@.subrange(0, i as int) =~= cells@);
    while i > 0
        invariant
            i <= cells@.len(),
            cell_for(cells_view(cells@), component@) == cell_for(
                cells_view(cells@.subrange(0, i as int)),
                component@,
            ),
        decreases i,
    {
        let ghost pre = cells_view(cells@.subrange(0, i as int));
        assert(pre.drop_last() =~= cells_view(cells@.subrange(0, i - 1)));
        if cells[i - 1].component == *component {
            return Some(cells[i - 1].bytes.clone());
        }
        i -= 1;
    }
    None
}

/// Total number of encoded bytes in `cells`, or `None` where it exceeds `u64`.
pub fn size_of_cells(cells: &Vec<DataCell>) -> (r: Option<u64>)
    ensures
        match r {
            Some(n) => n == cells_size(cells_view(cells@)),
            None => cells_size(cells_view(cells@)) > u64::MAX,
        },
{
    let mut total: u64 = 0;
    let mut i: usize = 0;
    while i < cells.len()
        invariant
            i <= cells@.len(),
            total == cells_size(cells_view(cells@.subrange(0, i as int))),
        decreases cells@.len() - i,
    {
        let ghost pre = cells_view(cells@.subrange(0, i + 1));
        assert(pre.drop_last() =~= cells_view(cells@.subrange(0, i as int)));
        let n = cells[i].bytes.len() as u64;
        if total > u64::MAX - n {
            proof {
                lemma_cells_size_prefix(cells_view(cells@), i + 1);
                assert(cells_view(cells@).subrange(0, i + 1) =~= pre);
            }
            return None;
        }
        total = total + n;
        i += 1;
    }
    assert(cells@.subrange(0, i as int) =~= cells@);
    Some(total)
}

/// A prefix never holds more bytes than the whole.
pub proof fn lemma_cells_size_prefix(cells: Seq<CellView>, k: int)
    requires
        0 <= k <= cells.len(),
    ensures
        cells_size(cells.subrange(0, k)) <= cells_size(cells),
    decreases cells.len(),
{
    if k < cells.len() {
        lemma_cells_size_prefix(cells.drop_last(), k);
        assert(cells.drop_last().subrange(0, k) =~= cells.subrange(0, k));
    } else {
        assert(cells.subrange(0, k) =~= cells);
    }
}

} // verus!
