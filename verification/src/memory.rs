//! Memory: an information-flow labelled store.
//!
//! Cells carry a label from a two-point lattice, `Low ⊑ High`. Reads enforce
//! no read-up (a Low-cleared reader cannot see High data); writes enforce no
//! write-down (a High-cleared writer cannot leak into Low cells).
//!
//! Memory is internally determined, so it is not journaled: replay
//! reconstructs it by re-execution.
use vstd::prelude::*;
use vstd::utf8::*;

use crate::fault::{Fault, FaultView};
use crate::text;
use crate::value::Value;

verus! {

/// The two-point lattice. `Low ⊑ High`.
#[derive(Clone, Copy, Debug, PartialEq, Eq, PartialOrd, Ord, Structural)]
pub enum Label {
    Low,
    High,
}

impl Label {
    /// The lattice order, "no more secret than".
    pub open spec fn below(self, other: Label) -> bool {
        self == Label::Low || other == Label::High
    }

    /// The label's name.
    pub open spec fn name(self) -> Seq<char> {
        match self {
            Label::Low => "Low"@,
            Label::High => "High"@,
        }
    }

    /// The lattice order ⊑ ("no more secret than").
    pub fn flows_to(self, other: Label) -> (r: bool)
        ensures
            r == self.below(other),
    {
        self == Label::Low || other == Label::High
    }

    /// Least upper bound ⊔.
    pub fn join(self, other: Label) -> (r: Label)
        ensures
            self.below(r),
            other.below(r),
            forall|u: Label| self.below(u) && other.below(u) ==> r.below(u),
    {
        if self == Label::High {
            self
        } else {
            other
        }
    }

    fn text(self) -> (r: &'static str)
        ensures
            r@ == self.name(),
    {
        match self {
            Label::Low => "Low",
            Label::High => "High",
        }
    }
}

/// A cell: its label and its value.
#[verifier::ext_equal]
pub struct Cell {
    pub label: Label,
    pub value: Seq<u8>,
}

/// Does `a` precede `b` in the order of their bytes?
pub open spec fn less_bytes(a: Seq<u8>, b: Seq<u8>) -> bool
    decreases a.len(),
{
    if b.len() == 0 {
        false
    } else if a.len() == 0 {
        true
    } else {
        a[0] < b[0] || (a[0] == b[0] && less_bytes(a.skip(1), b.skip(1)))
    }
}

/// Does the text `a` precede `b`? Texts are ordered by their UTF-8 bytes.
pub open spec fn less_text(a: Seq<char>, b: Seq<char>) -> bool {
    less_bytes(encode_utf8(a), encode_utf8(b))
}

proof fn lemma_less_irreflexive(a: Seq<u8>)
    ensures
        !less_bytes(a, a),
    decreases a.len(),
{
    if a.len() > 0 {
        lemma_less_irreflexive(a.skip(1));
    }
}

proof fn lemma_less_transitive(a: Seq<u8>, b: Seq<u8>, c: Seq<u8>)
    requires
        less_bytes(a, b),
        less_bytes(b, c),
    ensures
        less_bytes(a, c),
    decreases a.len(),
{
    if a.len() > 0 && b.len() > 0 && c.len() > 0 && a[0] == b[0] && b[0] == c[0] {
        lemma_less_transitive(a.skip(1), b.skip(1), c.skip(1));
    }
}

proof fn lemma_less_total(a: Seq<u8>, b: Seq<u8>)
    ensures
        less_bytes(a, b) || less_bytes(b, a) || a == b,
    decreases a.len(),
{
    if a.len() > 0 && b.len() > 0 && a[0] == b[0] {
        lemma_less_total(a.skip(1), b.skip(1));
        if a.skip(1) == b.skip(1) {
            assert(a =~= seq![a[0]] + a.skip(1));
            assert(b =~= seq![b[0]] + b.skip(1));
        }
    } else if a.len() == 0 && b.len() == 0 {
        assert(a =~= b);
    }
}

/// What is, or does not precede, a text that follows `s` does not precede `s`.
pub proof fn lemma_order(s: Seq<char>, t: Seq<char>, u: Seq<char>)
    requires
        less_text(s, t),
        u == t || !less_text(u, t),
    ensures
        !less_text(u, s),
{
    lemma_less_irreflexive(encode_utf8(t));
    if less_text(u, s) {
        lemma_less_transitive(encode_utf8(u), encode_utf8(s), encode_utf8(t));
    }
}

fn precedes_bytes(a: &[u8], b: &[u8]) -> (r: bool)
    ensures
        r == less_bytes(a@, b@),
{
    let mut i: usize = 0;
    assert(a@.skip(0) =~= a@);
    assert(b@.skip(0) =~= b@);
    while i < a.len() && i < b.len()
        invariant
            i <= a@.len(),
            i <= b@.len(),
            less_bytes(a@, b@) == less_bytes(a@.skip(i as int), b@.skip(i as int)),
        decreases a@.len() - i,
    {
        if a[i] < b[i] {
            return true;
        }
        if b[i] < a[i] {
            return false;
        }
        assert(a@.skip(i as int).skip(1) =~= a@.skip(i + 1));
        assert(b@.skip(i as int).skip(1) =~= b@.skip(i + 1));
        i += 1;
    }
    i < b.len()
}

/// Does the text `a` precede `b`?
pub fn precedes(a: &str, b: &str) -> (r: bool)
    ensures
        r == less_text(a@, b@),
{
    precedes_bytes(a.as_bytes(), b.as_bytes())
}

/// A labelled store: `key → (label, value)`.
pub struct Store {
    /// In ascending order of the keys.
    cells: Vec<(String, Label, Value)>,
}

spec fn ascending(cells: Seq<(String, Label, Value)>) -> bool {
    forall|i: int, j: int|
        0 <= i < j < cells.len() ==> less_text(
            (#[trigger] cells[i]).0@,
            (#[trigger] cells[j]).0@,
        )
}

spec fn holds(cells: Seq<(String, Label, Value)>, k: Seq<char>) -> bool {
    exists|i: int| 0 <= i < cells.len() && (#[trigger] cells[i]).0@ == k
}

spec fn place(cells: Seq<(String, Label, Value)>, k: Seq<char>) -> int {
    choose|i: int| 0 <= i < cells.len() && (#[trigger] cells[i]).0@ == k
}

spec fn cell_of(row: (String, Label, Value)) -> Cell {
    Cell { label: row.1, value: row.2@ }
}

spec fn cell_map(cells: Seq<(String, Label, Value)>) -> Map<Seq<char>, Cell> {
    Map::new(|k: Seq<char>| holds(cells, k), |k: Seq<char>| cell_of(cells[place(cells, k)]))
}

impl View for Store {
    type V = Map<Seq<char>, Cell>;

    closed spec fn view(&self) -> Map<Seq<char>, Cell> {
        cell_map(self.cells@)
    }
}

proof fn lemma_cell(cells: Seq<(String, Label, Value)>, i: int)
    requires
        ascending(cells),
        0 <= i < cells.len(),
    ensures
        cell_map(cells).dom().contains(cells[i].0@),
        cell_map(cells)[cells[i].0@] == cell_of(cells[i]),
{
    let k = cells[i].0@;
    assert(holds(cells, k));
    let j = place(cells, k);
    assert(cells[j].0@ == k);
    lemma_less_irreflexive(encode_utf8(k));
}

/// What an observer cleared for Low sees: the Low cells.
pub open spec fn low_cells(cells: Map<Seq<char>, Cell>) -> Map<Seq<char>, Seq<u8>> {
    Map::new(
        |k: Seq<char>| cells.dom().contains(k) && cells[k].label == Label::Low,
        |k: Seq<char>| cells[k].value,
    )
}

/// What reading `key` with `clearance` gives.
pub open spec fn read_result(
    cells: Map<Seq<char>, Cell>,
    key: Seq<char>,
    clearance: Label,
) -> Result<Seq<u8>, FaultView> {
    if !cells.dom().contains(key) {
        Err(FaultView::ToolErr("memory: no cell '"@ + key + "'"@))
    } else if cells[key].label.below(clearance) {
        Ok(cells[key].value)
    } else {
        Err(
            FaultView::CapabilityDenied(
                "memory: read-up denied on '"@ + key + "' ("@ + cells[key].label.name() + " ⋢ "@
                    + clearance.name() + ")"@,
            ),
        )
    }
}

/// The cells after a write of `value` at `label` by a writer at `writer`, and
/// what the writer is told.
pub open spec fn write_result(
    cells: Map<Seq<char>, Cell>,
    key: Seq<char>,
    label: Label,
    value: Seq<u8>,
    writer: Label,
) -> (Map<Seq<char>, Cell>, Result<(), FaultView>) {
    if writer.below(label) {
        (cells.insert(key, Cell { label, value }), Ok(()))
    } else {
        (
            cells,
            Err(
                FaultView::CapabilityDenied(
                    "memory: write-down denied on '"@ + key + "' ("@ + writer.name() + " ⋢ "@
                        + label.name() + ")"@,
                ),
            ),
        )
    }
}

impl Default for Store {
    /// The empty store.
    fn default() -> (r: Self)
        ensures
            r@ == Map::<Seq<char>, Cell>::empty(),
    {
        Store::new()
    }
}

impl Store {
    #[verifier::type_invariant]
    spec fn keys_ascend(self) -> bool {
        ascending(self.cells@)
    }

    pub fn new() -> (r: Self)
        ensures
            r@ == Map::<Seq<char>, Cell>::empty(),
    {
        let r = Store { cells: Vec::new() };
        assert(r@ =~= Map::empty());
        r
    }

    /// The number of cells whose key precedes `key`.
    fn rank(&self, key: &str) -> (r: usize)
        ensures
            r <= self.cells@.len(),
            forall|j: int| 0 <= j < r ==> less_text((#[trigger] self.cells@[j]).0@, key@),
            r < self.cells@.len() ==> !less_text(self.cells@[r as int].0@, key@),
    {
        let mut i: usize = 0;
        while i < self.cells.len() && precedes(self.cells[i].0.as_str(), key)
            invariant
                i <= self.cells@.len(),
                forall|j: int| 0 <= j < i ==> less_text((#[trigger] self.cells@[j]).0@, key@),
            decreases self.cells@.len() - i,
        {
            i += 1;
        }
        i
    }

    /// The position of the cell at `key`.
    fn find(&self, key: &str) -> (r: Option<usize>)
        ensures
            match r {
                Some(i) => i < self.cells@.len() && self.cells@[i as int].0@ == key@
                    && self@.dom().contains(key@) && self@[key@] == cell_of(self.cells@[i as int]),
                None => !self@.dom().contains(key@),
            },
    {
        proof {
            use_type_invariant(self);
        }
        let i: usize = self.rank(key);
        if i < self.cells.len() && text::same_text(self.cells[i].0.as_str(), key) {
            proof {
                lemma_cell(self.cells@, i as int);
            }
            Some(i)
        } else {
            proof {
                lemma_absent(self.cells@, key@, i as int);
            }
            None
        }
    }

    /// Reads `key` with `clearance`. Permitted iff the label of `key` flows to
    /// `clearance` (no read-up).
    pub fn read(&self, key: &str, clearance: Label) -> (r: Result<&Value, Fault>)
        ensures
            match r {
                Ok(v) => read_result(self@, key@, clearance) == Ok::<Seq<u8>, FaultView>(v@),
                Err(f) => read_result(self@, key@, clearance) == Err::<Seq<u8>, FaultView>(f@),
            },
    {
        match self.find(key) {
            None => Err(Fault::ToolErr("memory: no cell '".to_owned().concat(key).concat("'"))),
            Some(i) => {
                let label = self.cells[i].1;
                if label.flows_to(clearance) {
                    Ok(&self.cells[i].2)
                } else {
                    Err(
                        Fault::CapabilityDenied(
                            "memory: read-up denied on '".to_owned().concat(key).concat(
                                "' (",
                            ).concat(label.text()).concat(" ⋢ ").concat(clearance.text()).concat(
                                ")",
                            ),
                        ),
                    )
                }
            },
        }
    }

    /// Writes `key` at `label` as a writer running at `writer_label`.
    /// Permitted iff `writer_label` flows to `label` (no write-down).
    pub fn write<T: Into<Value>>(
        &mut self,
        key: &str,
        label: Label,
        value: T,
        writer_label: Label,
    ) -> (r: Result<(), Fault>)
        ensures
            writer_label.below(label) ==> r is Ok && exists|v: Value| #[trigger]
                call_ensures(T::into, (value,), v) && final(self)@ == write_result(
                    old(self)@,
                    key@,
                    label,
                    v@,
                    writer_label,
                ).0,
            !writer_label.below(label) ==> final(self)@ == old(self)@ && (r matches Err(f)
                && write_result(old(self)@, key@, label, Seq::empty(), writer_label).1 == Err::<
                (),
                FaultView,
            >(f@)),
    {
        if !writer_label.flows_to(label) {
            return Err(
                Fault::CapabilityDenied(
                    "memory: write-down denied on '".to_owned().concat(key).concat("' (").concat(
                        writer_label.text(),
                    ).concat(" ⋢ ").concat(label.text()).concat(")"),
                ),
            );
        }
        let value: Value = value.into();
        self.put(key, label, value);
        Ok(())
    }

    /// Puts a cell at `key`, in place of what was there.
    fn put(&mut self, key: &str, label: Label, value: Value)
        ensures
            final(self)@ == old(self)@.insert(key@, Cell { label, value: value@ }),
    {
        proof {
            use_type_invariant(&*self);
        }
        let i: usize = self.rank(key);
        let ghost before = self.cells@;
        let same: bool = i < self.cells.len() && text::same_text(self.cells[i].0.as_str(), key);
        let mut cells: Vec<(String, Label, Value)> = Vec::new();
        std::mem::swap(&mut cells, &mut self.cells);
        let row = (key.to_owned(), label, value);
        if same {
            cells[i] = row;
            proof {
                lemma_replaced(before, i as int, row);
            }
        } else {
            cells.insert(i, row);
            proof {
                lemma_inserted(before, i as int, row);
            }
        }
        self.cells = cells;
    }

    /// The Low-observable view of the store, in the order of the keys.
    pub fn low_view(&self) -> (r: Vec<(&str, &Value)>)
        ensures
            forall|i: int|
                0 <= i < r@.len() ==> low_cells(self@).dom().contains((#[trigger] r@[i]).0@)
                    && low_cells(self@)[r@[i].0@] == r@[i].1@,
            forall|k: Seq<char>| #[trigger]
                low_cells(self@).dom().contains(k) ==> exists|i: int|
                    0 <= i < r@.len() && (#[trigger] r@[i]).0@ == k,
            forall|i: int, j: int|
                0 <= i < j < r@.len() ==> less_text((#[trigger] r@[i]).0@, (#[trigger] r@[j]).0@),
    {
        proof {
            use_type_invariant(self);
        }
        let mut out: Vec<(&str, &Value)> = Vec::new();
        let mut n: usize = 0;
        while n < self.cells.len()
            invariant
                n <= self.cells@.len(),
                ascending(self.cells@),
                self@ == cell_map(self.cells@),
                forall|i: int|
                    0 <= i < out@.len() ==> low_cells(self@).dom().contains((#[trigger] out@[i]).0@)
                        && low_cells(self@)[out@[i].0@] == out@[i].1@,
                forall|i: int|
                    0 <= i < out@.len() ==> exists|m: int|
                        0 <= m < n && (#[trigger] self.cells@[m]).0@ == (#[trigger] out@[i]).0@,
                forall|m: int|
                    0 <= m < n && (#[trigger] self.cells@[m]).1 == Label::Low ==> exists|i: int|
                        0 <= i < out@.len() && (#[trigger] out@[i]).0@ == self.cells@[m].0@,
                forall|i: int, j: int|
                    0 <= i < j < out@.len() ==> less_text(
                        (#[trigger] out@[i]).0@,
                        (#[trigger] out@[j]).0@,
                    ),
            decreases self.cells@.len() - n,
        {
            let ghost before = out@;
            proof {
                lemma_cell(self.cells@, n as int);
            }
            if self.cells[n].1 == Label::Low {
                out.push((self.cells[n].0.as_str(), &self.cells[n].2));
                proof {
                    assert forall|i: int, j: int| 0 <= i < j < out@.len() implies less_text(
                        (#[trigger] out@[i]).0@,
                        (#[trigger] out@[j]).0@,
                    ) by {
                        assert(out@[i] == before[i]);
                        if j == before.len() {
                            let m = choose|m: int|
                                0 <= m < n && (#[trigger] self.cells@[m]).0@ == before[i].0@;
                            assert(less_text(self.cells@[m].0@, self.cells@[n as int].0@));
                        } else {
                            assert(out@[j] == before[j]);
                        }
                    }
                    assert forall|i: int| 0 <= i < out@.len() implies exists|m: int|
                        0 <= m < n + 1 && (#[trigger] self.cells@[m]).0@ == (
                        #[trigger] out@[i]).0@ by {
                        if i < before.len() {
                            assert(out@[i] == before[i]);
                            let m = choose|m: int|
                                0 <= m < n && (#[trigger] self.cells@[m]).0@ == before[i].0@;
                            assert(self.cells@[m].0@ == out@[i].0@);
                        } else {
                            assert(self.cells@[n as int].0@ == out@[i].0@);
                        }
                    }
                    assert forall|m: int|
                        0 <= m < n + 1 && (#[trigger] self.cells@[m]).1
                            == Label::Low implies exists|i: int|
                        0 <= i < out@.len() && (#[trigger] out@[i]).0@ == self.cells@[m].0@ by {
                        if m < n {
                            let i = choose|i: int|
                                0 <= i < before.len() && (#[trigger] before[i]).0@
                                    == self.cells@[m].0@;
                            assert(out@[i].0@ == self.cells@[m].0@);
                        } else {
                            assert(out@[before.len() as int].0@ == self.cells@[m].0@);
                        }
                    }
                }
            }
            n += 1;
        }
        proof {
            assert forall|k: Seq<char>| #[trigger] low_cells(self@).dom().contains(k) implies exists|
                i: int,
            |
                0 <= i < out@.len() && (#[trigger] out@[i]).0@ == k by {
                assert(holds(self.cells@, k));
                let m = place(self.cells@, k);
                assert(self.cells@[m].0@ == k);
                lemma_cell(self.cells@, m);
            }
        }
        out
    }

    pub fn len(&self) -> (r: usize)
        ensures
            r == self@.dom().len(),
            self@.dom().finite(),
    {
        proof {
            use_type_invariant(self);
            lemma_cell_count(self.cells@);
        }
        self.cells.len()
    }

    pub fn is_empty(&self) -> (r: bool)
        ensures
            r == (self@ == Map::<Seq<char>, Cell>::empty()),
    {
        proof {
            use_type_invariant(self);
            if self.cells@.len() == 0 {
                assert(self@ =~= Map::empty());
            } else {
                lemma_cell(self.cells@, 0);
            }
        }
        self.cells.len() == 0
    }
}

proof fn lemma_absent(cells: Seq<(String, Label, Value)>, k: Seq<char>, i: int)
    requires
        ascending(cells),
        0 <= i <= cells.len(),
        forall|j: int| 0 <= j < i ==> less_text((#[trigger] cells[j]).0@, k),
        i < cells.len() ==> !less_text(cells[i].0@, k) && cells[i].0@ != k,
    ensures
        !holds(cells, k),
        forall|j: int| i <= j < cells.len() ==> less_text(k, (#[trigger] cells[j]).0@),
{
    if i < cells.len() {
        lemma_less_total(encode_utf8(cells[i].0@), encode_utf8(k));
        text::lemma_utf8_injective(cells[i].0@, k);
        assert forall|j: int| i <= j < cells.len() implies less_text(
            k,
            (#[trigger] cells[j]).0@,
        ) by {
            if j > i {
                assert(less_text(cells[i].0@, cells[j].0@));
                lemma_less_transitive(
                    encode_utf8(k),
                    encode_utf8(cells[i].0@),
                    encode_utf8(cells[j].0@),
                );
            }
        }
    }
    lemma_less_irreflexive(encode_utf8(k));
    if holds(cells, k) {
        let j = place(cells, k);
        assert(cells[j].0@ == k);
        if j >= i {
            assert(less_text(k, cells[j].0@));
        }
    }
}

proof fn lemma_replaced(
    cells: Seq<(String, Label, Value)>,
    i: int,
    row: (String, Label, Value),
)
    requires
        ascending(cells),
        0 <= i < cells.len(),
        row.0@ == cells[i].0@,
    ensures
        ascending(cells.update(i, row)),
        cell_map(cells.update(i, row)) == cell_map(cells).insert(row.0@, cell_of(row)),
{
    let new = cells.update(i, row);
    assert forall|a: int, b: int| 0 <= a < b < new.len() implies less_text(
        (#[trigger] new[a]).0@,
        (#[trigger] new[b]).0@,
    ) by {
        assert(less_text(cells[a].0@, cells[b].0@));
    }
    lemma_same_map(cells, new, row.0@, cell_of(row), i);
}

proof fn lemma_inserted(
    cells: Seq<(String, Label, Value)>,
    i: int,
    row: (String, Label, Value),
)
    requires
        ascending(cells),
        0 <= i <= cells.len(),
        forall|j: int| 0 <= j < i ==> less_text((#[trigger] cells[j]).0@, row.0@),
        i < cells.len() ==> !less_text(cells[i].0@, row.0@) && cells[i].0@ != row.0@,
    ensures
        ascending(cells.insert(i, row)),
        cell_map(cells.insert(i, row)) == cell_map(cells).insert(row.0@, cell_of(row)),
{
    lemma_absent(cells, row.0@, i);
    let new = cells.insert(i, row);
    assert forall|a: int, b: int| 0 <= a < b < new.len() implies less_text(
        (#[trigger] new[a]).0@,
        (#[trigger] new[b]).0@,
    ) by {
        let x = if a < i {
            a
        } else {
            a - 1
        };
        let y = if b < i {
            b
        } else {
            b - 1
        };
        if a == i {
            assert(new[b] == cells[y]);
        } else if b == i {
            assert(new[a] == cells[x]);
        } else {
            assert(new[a] == cells[x] && new[b] == cells[y]);
            assert(less_text(cells[x].0@, cells[y].0@));
        }
    }
    lemma_same_map(cells, new, row.0@, cell_of(row), i);
}

/// Two ascending lists that differ only in the cell at `k`.
proof fn lemma_same_map(
    cells: Seq<(String, Label, Value)>,
    new: Seq<(String, Label, Value)>,
    k: Seq<char>,
    c: Cell,
    i: int,
)
    requires
        ascending(cells),
        ascending(new),
        0 <= i < new.len(),
        new[i].0@ == k,
        cell_of(new[i]) == c,
        new == cells.update(i, new[i]) && i < cells.len() && cells[i].0@ == k || new
            == cells.insert(i, new[i]) && i <= cells.len(),
    ensures
        cell_map(new) == cell_map(cells).insert(k, c),
{
    let grown = new.len() > cells.len();
    assert forall|q: Seq<char>| #[trigger]
        cell_map(new).dom().contains(q) == cell_map(cells).insert(k, c).dom().contains(q) by {
        if holds(new, q) {
            let a = place(new, q);
            assert(new[a].0@ == q);
            if a != i {
                let x = if grown && a > i {
                    a - 1
                } else {
                    a
                };
                assert(cells[x] == new[a]);
                assert(holds(cells, q));
            }
        }
        if holds(cells, q) && q != k {
            let x = place(cells, q);
            assert(cells[x].0@ == q);
            let a = if grown && x >= i {
                x + 1
            } else {
                x
            };
            assert(new[a] == cells[x]);
            assert(holds(new, q));
        }
        if q == k {
            assert(holds(new, q));
        }
    }
    assert forall|q: Seq<char>| #[trigger] cell_map(new).dom().contains(q) implies cell_map(new)[q]
        == cell_map(cells).insert(k, c)[q] by {
        assert(holds(new, q));
        let a = place(new, q);
        assert(new[a].0@ == q);
        lemma_cell(new, a);
        lemma_cell(new, i);
        if q != k {
            let x = if grown && a > i {
                a - 1
            } else {
                a
            };
            assert(cells[x] == new[a]);
            lemma_cell(cells, x);
        }
    }
    assert(cell_map(new) =~= cell_map(cells).insert(k, c));
}

proof fn lemma_cell_count(cells: Seq<(String, Label, Value)>)
    requires
        ascending(cells),
    ensures
        cell_map(cells).dom().finite(),
        cell_map(cells).dom().len() == cells.len(),
    decreases cells.len(),
{
    if cells.len() == 0 {
        assert(cell_map(cells).dom() =~= Set::empty());
    } else {
        let rest = cells.drop_last();
        assert forall|a: int, b: int| 0 <= a < b < rest.len() implies less_text(
            (#[trigger] rest[a]).0@,
            (#[trigger] rest[b]).0@,
        ) by {
            assert(rest[a] == cells[a] && rest[b] == cells[b]);
        }
        lemma_cell_count(rest);
        let last = cells.last();
        assert(forall|j: int| 0 <= j < rest.len() ==> less_text((#[trigger] rest[j]).0@, last.0@))
            by {
            assert forall|j: int| 0 <= j < rest.len() implies less_text(
                (#[trigger] rest[j]).0@,
                last.0@,
            ) by {
                assert(cells[j] == rest[j]);
            }
        }
        lemma_absent(rest, last.0@, rest.len() as int);
        assert(rest.insert(rest.len() as int, last) =~= cells);
        lemma_inserted(rest, rest.len() as int, last);
        assert(cell_map(cells).dom() =~= cell_map(rest).dom().insert(last.0@));
    }
}

/// No read-up: what a reader gets flows to its clearance.
pub proof fn law_no_read_up(cells: Map<Seq<char>, Cell>, key: Seq<char>, clearance: Label)
    requires
        read_result(cells, key, clearance) is Ok,
    ensures
        cells.dom().contains(key),
        cells[key].label.below(clearance),
{
}

/// No write-down: a High writer changes no Low cell's value; at Low it is
/// refused and nothing changes.
pub proof fn law_no_write_down(
    cells: Map<Seq<char>, Cell>,
    key: Seq<char>,
    value: Seq<u8>,
)
    ensures
        write_result(cells, key, Label::Low, value, Label::High).1 is Err,
        write_result(cells, key, Label::Low, value, Label::High).0 == cells,
{
}

/// What is written at High never shows in the Low-observable view, unless it
/// takes the place of a Low cell.
pub proof fn law_high_writes_are_invisible(
    cells: Map<Seq<char>, Cell>,
    key: Seq<char>,
    value: Seq<u8>,
    writer: Label,
)
    requires
        !low_cells(cells).dom().contains(key),
    ensures
        low_cells(write_result(cells, key, Label::High, value, writer).0) == low_cells(cells),
{
    assert(low_cells(write_result(cells, key, Label::High, value, writer).0) =~= low_cells(cells));
}

/// Two stores that look the same to a Low observer answer its reads of Low
/// cells alike.
pub proof fn law_low_reads_agree(
    a: Map<Seq<char>, Cell>,
    b: Map<Seq<char>, Cell>,
    key: Seq<char>,
)
    requires
        low_cells(a) == low_cells(b),
        low_cells(a).dom().contains(key),
    ensures
        read_result(a, key, Label::Low) == read_result(b, key, Label::Low),
{
    assert(low_cells(b).dom().contains(key));
    assert(low_cells(a)[key] == low_cells(b)[key]);
}

/// What is read after a permitted write, by a cleared reader, is what was
/// written.
pub proof fn law_read_after_write(
    cells: Map<Seq<char>, Cell>,
    key: Seq<char>,
    label: Label,
    value: Seq<u8>,
    writer: Label,
    clearance: Label,
)
    requires
        writer.below(label),
        label.below(clearance),
    ensures
        read_result(write_result(cells, key, label, value, writer).0, key, clearance) == Ok::<
            Seq<u8>,
            FaultView,
        >(value),
{
}

/// What is Low flows anywhere, and what is High flows to High only; what two
/// labels join to is High unless both are Low.
pub proof fn law_high_never_flows_to_low(a: Label, b: Label, flows: bool, joined: Label)
    requires
        call_ensures(Label::flows_to, (a, b), flows),
        call_ensures(Label::join, (a, b), joined),
    ensures
        flows <==> !(a == Label::High && b == Label::Low),
        joined == Label::High <==> a == Label::High || b == Label::High,
{
    assert(a.below(Label::Low) <==> a == Label::Low);
    assert(b.below(Label::Low) <==> b == Label::Low);
}

/// A cell is read if and only if it is there and is not High under a Low
/// clearance, and what is read is its value. A missing cell is a tool's fault,
/// a secret one a missing capability.
pub proof fn law_reads_are_cleared(
    store: &Store,
    key: &str,
    clearance: Label,
    r: Result<&Value, Fault>,
)
    requires
        call_ensures(Store::read, (store, key, clearance), r),
    ensures
        ({
            let here = store@.dom().contains(key@);
            let secret = store@[key@].label == Label::High && clearance == Label::Low;
            &&& r is Ok <==> here && !secret
            &&& r matches Ok(v) ==> v@ == store@[key@].value
            &&& !here ==> (r matches Err(Fault::ToolErr(m)) && text::holds(m@, key@))
            &&& here && secret ==> (r matches Err(Fault::CapabilityDenied(m)) && text::holds(
                m@,
                key@,
            ))
        }),
{
    let a = "memory: no cell '"@;
    let b = "memory: read-up denied on '"@;
    text::lemma_holds_itself(key@);
    text::lemma_holds_in_sum(a, key@, key@);
    text::lemma_holds_in_sum(a + key@, "'"@, key@);
    text::lemma_holds_in_sum(b, key@, key@);
    text::lemma_holds_in_sum(b + key@, "' ("@, key@);
    if store@.dom().contains(key@) {
        let n = store@[key@].label.name();
        let c = clearance.name();
        text::lemma_holds_in_sum(b + key@ + "' ("@, n, key@);
        text::lemma_holds_in_sum(b + key@ + "' ("@ + n, " ⋢ "@, key@);
        text::lemma_holds_in_sum(b + key@ + "' ("@ + n + " ⋢ "@, c, key@);
        text::lemma_holds_in_sum(b + key@ + "' ("@ + n + " ⋢ "@ + c, ")"@, key@);
    }
    if let Err(f) = r {
        assert(f@ is ToolErr || f@ is CapabilityDenied);
    }
}

/// A write is refused if and only if a High writer writes at Low. One that is
/// not sets its cell, label and value, and no other; a refused one changes
/// nothing.
pub proof fn law_writes_set_one_cell(
    cells: Map<Seq<char>, Cell>,
    key: Seq<char>,
    label: Label,
    value: Seq<u8>,
    writer: Label,
    other: Seq<char>,
)
    ensures
        ({
            let (after, r) = write_result(cells, key, label, value, writer);
            let refused = writer == Label::High && label == Label::Low;
            &&& r is Err <==> refused
            &&& refused ==> after == cells && r->Err_0 is CapabilityDenied
            &&& !refused ==> after.dom().contains(key) && after[key].label == label
                && after[key].value == value
            &&& other != key ==> after.dom().contains(other) == cells.dom().contains(other)
            &&& other != key && cells.dom().contains(other) ==> after[other] == cells[other]
        }),
{
}

/// A Low observer sees the Low cells, with their values, and no High one.
pub proof fn law_low_view_is_the_low_cells(cells: Map<Seq<char>, Cell>, key: Seq<char>)
    ensures
        low_cells(cells).dom().contains(key) <==> cells.dom().contains(key) && cells[key].label
            != Label::High,
        low_cells(cells).dom().contains(key) ==> low_cells(cells)[key] == cells[key].value,
{
}

/// Texts are ordered like words in a dictionary, byte by byte: the first byte
/// in which two differ decides, and a start of a text comes before it. Of two
/// different texts exactly one precedes the other.
pub proof fn law_texts_are_ordered(a: Seq<u8>, b: Seq<u8>, c: Seq<u8>, n: int)
    ensures
        0 <= n < a.len() && n < b.len() && a.take(n) == b.take(n) && a[n] < b[n] ==> less_bytes(
            a,
            b,
        ),
        n == a.len() && n < b.len() && b.take(n) == a ==> less_bytes(a, b),
        !less_bytes(a, a),
        less_bytes(a, b) ==> !less_bytes(b, a),
        less_bytes(a, b) && less_bytes(b, c) ==> less_bytes(a, c),
        a != b ==> less_bytes(a, b) || less_bytes(b, a),
{
    lemma_less_irreflexive(a);
    lemma_less_total(a, b);
    if less_bytes(a, b) && less_bytes(b, a) {
        lemma_less_transitive(a, b, a);
    }
    if less_bytes(a, b) && less_bytes(b, c) {
        lemma_less_transitive(a, b, c);
    }
    if 0 <= n < a.len() && n < b.len() && a.take(n) == b.take(n) && a[n] < b[n] {
        lemma_less_at(a, b, n);
    }
    if n == a.len() && n < b.len() && b.take(n) == a {
        assert(a.take(n) =~= a);
        lemma_less_at(a, b, n);
    }
}

proof fn lemma_less_at(a: Seq<u8>, b: Seq<u8>, n: int)
    requires
        0 <= n <= a.len(),
        n < b.len(),
        a.take(n) == b.take(n),
        n == a.len() || a[n] < b[n],
    ensures
        less_bytes(a, b),
    decreases n,
{
    if n > 0 {
        assert(a.take(n)[0] == a[0] && b.take(n)[0] == b[0]);
        assert(a[0] == b[0]);
        assert(a.skip(1).take(n - 1) =~= a.take(n).skip(1));
        assert(b.skip(1).take(n - 1) =~= b.take(n).skip(1));
        lemma_less_at(a.skip(1), b.skip(1), n - 1);
    }
}

} // verus!
