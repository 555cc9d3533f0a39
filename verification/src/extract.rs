//! The streaming extractor: walks spreadsheet cells in row-major order,
//! groups consecutive cells sharing a row number into one logical row, and on
//! each row boundary inserts the trimmed key and its captured value into the
//! mapping. The header row (row 0) never contributes data; a blank key drops
//! the row; embedded line breaks in a value become the literal two-byte
//! sequence `\n` as the value is captured.

use vstd::prelude::*;

use crate::bytes::trim_seq;
use crate::kvmap::{kv_contains, kv_get, kv_insert, kv_wf, KvMap, KvSeq};

verus! {

/// One spreadsheet cell: its position and its text, `None` when the cell
/// could not be converted to text.
pub struct Cell {
    pub row: u32,
    pub col: u32,
    pub value: Option<Vec<u8>>,
}

/// The abstract content of a cell.
pub struct GCell {
    pub row: int,
    pub col: int,
    pub value: Option<Seq<u8>>,
}

impl View for Cell {
    type V = GCell;

    open spec fn view(&self) -> GCell {
        GCell {
            row: self.row as int,
            col: self.col as int,
            value: match self.value {
                Option::Some(v) => Option::Some(v@),
                Option::None => Option::None,
            },
        }
    }
}

/// The abstract content of a cell list.
pub open spec fn cells_view(s: Seq<Cell>) -> Seq<GCell> {
    s.map_values(|c: Cell| c@)
}

/// Embedded line breaks become the literal two-byte sequence `\n`.
pub open spec fn normalize_value(v: Seq<u8>) -> Seq<u8> {
    crate::escape::replace_seq(v, seq![10u8], seq![92u8, 110u8])
}

/// A captured cell text: missing text counts as empty, and line breaks are
/// normalized.
pub open spec fn captured(v: Option<Seq<u8>>) -> Seq<u8> {
    match v {
        Option::Some(v) => normalize_value(v),
        Option::None => normalize_value(Seq::empty()),
    }
}

/// The in-progress row of the single-target machine.
pub struct RowSingleG {
    pub row: Option<int>,
    pub tag: Option<Seq<u8>>,
    pub value: Option<Seq<u8>>,
}

/// The machine starts with no row in progress.
pub open spec fn row_single_init() -> RowSingleG {
    RowSingleG { row: Option::None, tag: Option::None, value: Option::None }
}

/// Row flush: a row that contributed both a key and a value, with a key that
/// is not blank after trimming, is inserted; any other row is dropped.
pub open spec fn flush_tv(m: KvSeq, tag: Option<Seq<u8>>, value: Option<Seq<u8>>) -> KvSeq {
    match tag {
        Option::Some(t) => match value {
            Option::Some(v) => if trim_seq(t).len() > 0 {
                kv_insert(m, trim_seq(t), v)
            } else {
                m
            },
            Option::None => m,
        },
        Option::None => m,
    }
}

/// One cell of the single-target machine: a changed row number flushes the
/// previous row; the header row and unrelated columns are skipped; a key-
/// column cell sets the pending key, the target column sets the pending
/// value.
pub open spec fn step_single(tag_index: int, lang_index: int, st: RowSingleG, m: KvSeq, c: GCell) -> (
    RowSingleG,
    KvSeq,
) {
    let boundary = match st.row {
        Option::Some(r) => r != c.row,
        Option::None => false,
    };
    let m1 = if boundary {
        flush_tv(m, st.tag, st.value)
    } else {
        m
    };
    let st0 = if boundary {
        row_single_init()
    } else {
        st
    };
    let st1 = RowSingleG { row: Option::Some(c.row), tag: st0.tag, value: st0.value };
    if c.row == 0 || (c.col != tag_index && c.col != lang_index) {
        (st1, m1)
    } else if c.col == tag_index {
        (RowSingleG { row: st1.row, tag: c.value, value: st1.value }, m1)
    } else {
        (RowSingleG { row: st1.row, tag: st1.tag, value: Option::Some(captured(c.value)) }, m1)
    }
}

/// The run of the single-target machine over a cell list.
pub open spec fn run_single(
    tag_index: int,
    lang_index: int,
    st: RowSingleG,
    m: KvSeq,
    cells: Seq<GCell>,
) -> (RowSingleG, KvSeq)
    decreases cells.len(),
{
    if cells.len() == 0 {
        (st, m)
    } else {
        let s1 = step_single(tag_index, lang_index, st, m, cells[0]);
        run_single(tag_index, lang_index, s1.0, s1.1, cells.skip(1))
    }
}

/// What the single-target extractor adds to a mapping: the run over all
/// cells, with the final in-progress row flushed.
pub open spec fn extract_single_spec(
    m0: KvSeq,
    cells: Seq<GCell>,
    tag_index: int,
    lang_index: int,
) -> KvSeq {
    let fin = run_single(tag_index, lang_index, row_single_init(), m0, cells);
    flush_tv(fin.1, fin.0.tag, fin.0.value)
}

/// Splitting a single-target run at any point composes.
pub proof fn lemma_run_single_concat(
    tag_index: int,
    lang_index: int,
    st: RowSingleG,
    m: KvSeq,
    a: Seq<GCell>,
    b: Seq<GCell>,
)
    ensures
        run_single(tag_index, lang_index, st, m, a + b) == run_single(
            tag_index,
            lang_index,
            run_single(tag_index, lang_index, st, m, a).0,
            run_single(tag_index, lang_index, st, m, a).1,
            b,
        ),
    decreases a.len(),
{
    if a.len() == 0 {
        assert(a + b =~= b);
    } else {
        let s1 = step_single(tag_index, lang_index, st, m, a[0]);
        assert((a + b)[0] == a[0]);
        assert((a + b).skip(1) =~= a.skip(1) + b);
        lemma_run_single_concat(tag_index, lang_index, s1.0, s1.1, a.skip(1), b);
    }
}

/// The view of an optional byte vector.
pub open spec fn opt_view(o: Option<Vec<u8>>) -> Option<Seq<u8>> {
    match o {
        Option::Some(v) => Option::Some(v@),
        Option::None => Option::None,
    }
}

/// Captures one cell text, executable form.
fn capture(v: &Option<Vec<u8>>) -> (r: Vec<u8>)
    ensures
        r@ == captured(opt_view(*v)),
{
    let nl: Vec<u8> = vec![10u8];
    let lit: Vec<u8> = vec![92u8, 110u8];
    proof {
        assert(nl@ =~= seq![10u8]);
        assert(lit@ =~= seq![92u8, 110u8]);
    }
    match v {
        Some(v) => crate::escape::replace_all(v, &nl, &lit),
        None => {
            let empty: Vec<u8> = Vec::new();
            proof {
                assert(empty@ =~= Seq::<u8>::empty());
            }
            crate::escape::replace_all(&empty, &nl, &lit)
        },
    }
}

/// Flushes one finished row into the mapping.
fn flush_row(map: &mut KvMap, tag: &Option<Vec<u8>>, value: &Option<Vec<u8>>)
    requires
        old(map).wf(),
    ensures
        final(map).wf(),
        final(map)@ == flush_tv(old(map)@, opt_view(*tag), opt_view(*value)),
{
    match tag {
        Some(t) => {
            match value {
                Some(v) => {
                    let tt = crate::bytes::trim_bytes(t);
                    if tt.len() > 0 {
                        map.insert(tt, crate::kvmap::clone_bytes(v));
                        proof {
                            crate::kvmap::lemma_kv_insert(old(map)@, trim_seq(t@), v@);
                        }
                    }
                },
                None => {},
            }
        },
        None => {},
    }
}

/// The single-target extractor: one pass over the cells, adding this
/// language's key/value pairs to the mapping.
pub fn process_excel_single_lang(
    cells: &Vec<Cell>,
    tag_index: u32,
    lang_index: u32,
    tag_value_map: &mut KvMap,
)
    requires
        old(tag_value_map).wf(),
    ensures
        final(tag_value_map).wf(),
        final(tag_value_map)@ == extract_single_spec(
            old(tag_value_map)@,
            cells_view(cells@),
            tag_index as int,
            lang_index as int,
        ),
{
    let ghost cv = cells_view(cells@);
    let ghost m0 = tag_value_map@;
    let ghost ti = tag_index as int;
    let ghost li = lang_index as int;
    let mut cur_row: Option<u32> = None;
    let mut cur_tag: Option<Vec<u8>> = None;
    let mut cur_value: Option<Vec<u8>> = None;
    let mut i: usize = 0;
    proof {
        assert(cv.take(0) =~= Seq::<GCell>::empty());
    }
    while i < cells.len()
        invariant
            0 <= i <= cells@.len(),
            cv == cells_view(cells@),
            cv.len() == cells@.len(),
            ti == tag_index as int,
            li == lang_index as int,
            m0 == old(tag_value_map)@,
            tag_value_map.wf(),
            run_single(ti, li, row_single_init(), m0, cv.take(i as int)) == (RowSingleG {
                row: match cur_row {
                    Option::Some(r) => Option::Some(r as int),
                    Option::None => Option::None,
                },
                tag: opt_view(cur_tag),
                value: opt_view(cur_value),
            }, tag_value_map@),
        decreases cells@.len() - i,
    {
        let ghost st = run_single(ti, li, row_single_init(), m0, cv.take(i as int)).0;
        let ghost gm = tag_value_map@;
        let ghost gc = cv[i as int];
        proof {
            reveal_with_fuel(run_single, 2);
            assert(cv.take(i + 1) =~= cv.take(i as int) + seq![gc]);
            lemma_run_single_concat(ti, li, row_single_init(), m0, cv.take(i as int), seq![gc]);
            assert(seq![gc].skip(1) =~= Seq::<GCell>::empty());
            assert(run_single(ti, li, st, gm, seq![gc]) == step_single(ti, li, st, gm, gc));
            assert(cells@[i as int]@ == gc);
        }
        let c = &cells[i];
        let mut boundary = false;
        match cur_row {
            Some(r) => {
                if c.row != r {
                    boundary = true;
                }
            },
            None => {},
        }
        if boundary {
            flush_row(tag_value_map, &cur_tag, &cur_value);
            cur_tag = None;
            cur_value = None;
        }
        cur_row = Some(c.row);
        if c.row == 0 || (c.col != tag_index && c.col != lang_index) {
        } else if c.col == tag_index {
            cur_tag = match &c.value {
                Some(v) => Some(crate::kvmap::clone_bytes(v)),
                None => None,
            };
        } else {
            cur_value = Some(capture(&c.value));
        }
        i += 1;
    }
    proof {
        assert(cv.take(cv.len() as int) =~= cv);
    }
    flush_row(tag_value_map, &cur_tag, &cur_value);
}

/// A column -> text mapping for one row of the multi-target machine.
pub struct ColMap {
    entries: Vec<(u32, Vec<u8>)>,
}

impl View for ColMap {
    type V = Seq<(int, Seq<u8>)>;

    closed spec fn view(&self) -> Seq<(int, Seq<u8>)> {
        self.entries@.map_values(|e: (u32, Vec<u8>)| (e.0 as int, e.1@))
    }
}

impl ColMap {
    /// Keys stay unique.
    pub open spec fn wf(&self) -> bool {
        kv_wf(self@)
    }

    /// An empty column mapping.
    pub fn new() -> (r: ColMap)
        ensures
            r.wf(),
            r@ == Seq::<(int, Seq<u8>)>::empty(),
    {
        let r = ColMap { entries: Vec::new() };
        proof {
            assert(r@ =~= Seq::<(int, Seq<u8>)>::empty());
        }
        r
    }

    /// Position of a column, if present.
    fn index_of(&self, col: u32) -> (r: Option<usize>)
        requires
            self.wf(),
        ensures
            match r {
                Some(i) => 0 <= i < self@.len() && self@[i as int].0 == col as int && kv_contains(
                    self@,
                    col as int,
                ) && crate::kvmap::kv_index(self@, col as int) == i,
                None => !kv_contains(self@, col as int),
            },
    {
        let mut i: usize = 0;
        while i < self.entries.len()
            invariant
                0 <= i <= self@.len(),
                self@.len() == self.entries@.len(),
                self.wf(),
                forall|j: int| 0 <= j < i ==> (#[trigger] self@[j]).0 != col as int,
            decreases self@.len() - i,
        {
            if self.entries[i].0 == col {
                proof {
                    crate::kvmap::lemma_kv_index_unique(self@, col as int, i as int);
                }
                return Some(i);
            }
            i += 1;
        }
        proof {
            if kv_contains(self@, col as int) {
                let j = crate::kvmap::kv_index(self@, col as int);
                assert(self@[j].0 != col as int);
            }
        }
        None
    }

    /// The text at a column, if present.
    pub fn get(&self, col: u32) -> (r: Option<&Vec<u8>>)
        requires
            self.wf(),
        ensures
            match r {
                Some(v) => kv_contains(self@, col as int) && v@ == kv_get(self@, col as int),
                None => !kv_contains(self@, col as int),
            },
    {
        match self.index_of(col) {
            Some(i) => Some(&self.entries[i].1),
            None => None,
        }
    }

    /// Inserts a column/text pair, overwriting an existing column in place.
    pub fn insert(&mut self, col: u32, v: Vec<u8>)
        requires
            old(self).wf(),
        ensures
            final(self).wf(),
            final(self)@ == kv_insert(old(self)@, col as int, v@),
    {
        proof {
            crate::kvmap::lemma_kv_insert(self@, col as int, v@);
        }
        match self.index_of(col) {
            Some(i) => {
                let ghost before = self@;
                self.entries[i] = (col, v);
                proof {
                    assert(self@ =~= before.update(i as int, (col as int, v@)));
                }
            },
            None => {
                let ghost before = self@;
                self.entries.push((col, v));
                proof {
                    assert(self@ =~= before.push((col as int, v@)));
                }
            },
        }
    }
}

/// A key -> (column -> text) mapping, the result of one multi-target pass.
pub struct MultiMap {
    entries: Vec<(Vec<u8>, ColMap)>,
}

impl View for MultiMap {
    type V = Seq<(Seq<u8>, Seq<(int, Seq<u8>)>)>;

    closed spec fn view(&self) -> Seq<(Seq<u8>, Seq<(int, Seq<u8>)>)> {
        self.entries@.map_values(|e: (Vec<u8>, ColMap)| (e.0@, e.1@))
    }
}

impl MultiMap {
    /// Keys stay unique and every inner mapping is well-formed.
    pub open spec fn wf(&self) -> bool {
        kv_wf(self@) && forall|i: int| 0 <= i < self@.len() ==> kv_wf((#[trigger] self@[i]).1)
    }

    /// An empty mapping.
    pub fn new() -> (r: MultiMap)
        ensures
            r.wf(),
            r@ == Seq::<(Seq<u8>, Seq<(int, Seq<u8>)>)>::empty(),
    {
        let r = MultiMap { entries: Vec::new() };
        proof {
            assert(r@ =~= Seq::<(Seq<u8>, Seq<(int, Seq<u8>)>)>::empty());
        }
        r
    }

    /// Number of entries.
    pub fn len(&self) -> (r: usize)
        ensures
            r == self@.len(),
    {
        self.entries.len()
    }

    /// The key at an iteration position.
    pub fn key_at(&self, i: usize) -> (r: &Vec<u8>)
        requires
            i < self@.len(),
        ensures
            r@ == self@[i as int].0,
    {
        &self.entries[i].0
    }

    /// The inner mapping at an iteration position.
    pub fn value_at(&self, i: usize) -> (r: &ColMap)
        requires
            i < self@.len(),
        ensures
            r@ == self@[i as int].1,
            self.wf() ==> r.wf(),
    {
        proof {
            if self.wf() {
                assert(kv_wf((self@[i as int]).1));
            }
        }
        &self.entries[i].1
    }

    /// Position of a key, if present.
    fn index_of(&self, k: &Vec<u8>) -> (r: Option<usize>)
        requires
            self.wf(),
        ensures
            match r {
                Some(i) => 0 <= i < self@.len() && self@[i as int].0 == k@ && kv_contains(
                    self@,
                    k@,
                ) && crate::kvmap::kv_index(self@, k@) == i,
                None => !kv_contains(self@, k@),
            },
    {
        let mut i: usize = 0;
        while i < self.entries.len()
            invariant
                0 <= i <= self@.len(),
                self@.len() == self.entries@.len(),
                self.wf(),
                forall|j: int| 0 <= j < i ==> (#[trigger] self@[j]).0 != k@,
            decreases self@.len() - i,
        {
            if crate::bytes::bytes_eq(&self.entries[i].0, k) {
                proof {
                    crate::kvmap::lemma_kv_index_unique(self@, k@, i as int);
                }
                return Some(i);
            }
            i += 1;
        }
        proof {
            if kv_contains(self@, k@) {
                let j = crate::kvmap::kv_index(self@, k@);
                assert(self@[j].0 != k@);
            }
        }
        None
    }

    /// Inserts a key with its row's column mapping, overwriting an existing
    /// key in place.
    pub fn insert(&mut self, k: Vec<u8>, v: ColMap)
        requires
            old(self).wf(),
            v.wf(),
        ensures
            final(self).wf(),
            final(self)@ == kv_insert(old(self)@, k@, v@),
    {
        proof {
            crate::kvmap::lemma_kv_insert(self@, k@, v@);
        }
        match self.index_of(&k) {
            Some(i) => {
                let ghost before = self@;
                self.entries[i] = (k, v);
                proof {
                    assert(self@ =~= before.update(i as int, (k@, v@)));
                    assert forall|l: int| 0 <= l < self@.len() implies kv_wf(
                        (#[trigger] self@[l]).1,
                    ) by {
                        if l != i {
                            assert(self@[l] == before[l]);
                        }
                    }
                }
            },
            None => {
                let ghost before = self@;
                self.entries.push((k, v));
                proof {
                    assert(self@ =~= before.push((k@, v@)));
                    assert forall|l: int| 0 <= l < self@.len() implies kv_wf(
                        (#[trigger] self@[l]).1,
                    ) by {
                        if l < before.len() {
                            assert(self@[l] == before[l]);
                        }
                    }
                }
            },
        }
    }
}

/// The in-progress row of the multi-target machine.
pub struct RowMultiG {
    pub row: Option<int>,
    pub tag: Option<Seq<u8>>,
    pub value: Option<Seq<(int, Seq<u8>)>>,
}

/// The machine starts with no row in progress.
pub open spec fn row_multi_init() -> RowMultiG {
    RowMultiG { row: Option::None, tag: Option::None, value: Option::None }
}

/// Row flush of the multi-target machine.
pub open spec fn flush_multi(
    m: Seq<(Seq<u8>, Seq<(int, Seq<u8>)>)>,
    tag: Option<Seq<u8>>,
    value: Option<Seq<(int, Seq<u8>)>>,
) -> Seq<(Seq<u8>, Seq<(int, Seq<u8>)>)> {
    match tag {
        Option::Some(t) => match value {
            Option::Some(v) => if trim_seq(t).len() > 0 {
                kv_insert(m, trim_seq(t), v)
            } else {
                m
            },
            Option::None => m,
        },
        Option::None => m,
    }
}

/// One cell of the multi-target machine: as the single-target machine, with
/// every requested target column captured into the row's column mapping.
pub open spec fn step_multi(
    tag_index: int,
    lang_cols: Seq<int>,
    st: RowMultiG,
    m: Seq<(Seq<u8>, Seq<(int, Seq<u8>)>)>,
    c: GCell,
) -> (RowMultiG, Seq<(Seq<u8>, Seq<(int, Seq<u8>)>)>) {
    let boundary = match st.row {
        Option::Some(r) => r != c.row,
        Option::None => false,
    };
    let m1 = if boundary {
        flush_multi(m, st.tag, st.value)
    } else {
        m
    };
    let st0 = if boundary {
        row_multi_init()
    } else {
        st
    };
    let st1 = RowMultiG { row: Option::Some(c.row), tag: st0.tag, value: st0.value };
    if c.row == 0 || (c.col != tag_index && !lang_cols.contains(c.col)) {
        (st1, m1)
    } else if c.col == tag_index {
        (RowMultiG { row: st1.row, tag: c.value, value: st1.value }, m1)
    } else {
        let inner = match st1.value {
            Option::Some(v) => v,
            Option::None => Seq::empty(),
        };
        (
            RowMultiG {
                row: st1.row,
                tag: st1.tag,
                value: Option::Some(kv_insert(inner, c.col, captured(c.value))),
            },
            m1,
        )
    }
}

/// The run of the multi-target machine over a cell list.
pub open spec fn run_multi(
    tag_index: int,
    lang_cols: Seq<int>,
    st: RowMultiG,
    m: Seq<(Seq<u8>, Seq<(int, Seq<u8>)>)>,
    cells: Seq<GCell>,
) -> (RowMultiG, Seq<(Seq<u8>, Seq<(int, Seq<u8>)>)>)
    decreases cells.len(),
{
    if cells.len() == 0 {
        (st, m)
    } else {
        let s1 = step_multi(tag_index, lang_cols, st, m, cells[0]);
        run_multi(tag_index, lang_cols, s1.0, s1.1, cells.skip(1))
    }
}

/// What the multi-target extractor adds to a mapping.
pub open spec fn extract_multi_spec(
    m0: Seq<(Seq<u8>, Seq<(int, Seq<u8>)>)>,
    cells: Seq<GCell>,
    tag_index: int,
    lang_cols: Seq<int>,
) -> Seq<(Seq<u8>, Seq<(int, Seq<u8>)>)> {
    let fin = run_multi(tag_index, lang_cols, row_multi_init(), m0, cells);
    flush_multi(fin.1, fin.0.tag, fin.0.value)
}

/// Splitting a multi-target run at any point composes.
pub proof fn lemma_run_multi_concat(
    tag_index: int,
    lang_cols: Seq<int>,
    st: RowMultiG,
    m: Seq<(Seq<u8>, Seq<(int, Seq<u8>)>)>,
    a: Seq<GCell>,
    b: Seq<GCell>,
)
    ensures
        run_multi(tag_index, lang_cols, st, m, a + b) == run_multi(
            tag_index,
            lang_cols,
            run_multi(tag_index, lang_cols, st, m, a).0,
            run_multi(tag_index, lang_cols, st, m, a).1,
            b,
        ),
    decreases a.len(),
{
    if a.len() == 0 {
        assert(a + b =~= b);
    } else {
        let s1 = step_multi(tag_index, lang_cols, st, m, a[0]);
        assert((a + b)[0] == a[0]);
        assert((a + b).skip(1) =~= a.skip(1) + b);
        lemma_run_multi_concat(tag_index, lang_cols, s1.0, s1.1, a.skip(1), b);
    }
}

/// The view of an optional column mapping.
pub open spec fn opt_col_view(o: Option<ColMap>) -> Option<Seq<(int, Seq<u8>)>> {
    match o {
        Option::Some(v) => Option::Some(v@),
        Option::None => Option::None,
    }
}

/// Whether a column is one of the requested target columns.
fn contains_col(cols: &Vec<u32>, col: u32) -> (r: bool)
    ensures
        r == cols@.map_values(|x: u32| x as int).contains(col as int),
{
    let ghost cv = cols@.map_values(|x: u32| x as int);
    let mut i: usize = 0;
    while i < cols.len()
        invariant
            0 <= i <= cols@.len(),
            cv == cols@.map_values(|x: u32| x as int),
            cv.len() == cols@.len(),
            forall|j: int| 0 <= j < i ==> cv[j] != col as int,
        decreases cols@.len() - i,
    {
        if cols[i] == col {
            proof {
                assert(cv[i as int] == col as int);
            }
            return true;
        }
        i += 1;
    }
    proof {
        if cv.contains(col as int) {
            let j = choose|j: int| 0 <= j < cv.len() && cv[j] == col as int;
            assert(cv[j] != col as int);
        }
    }
    false
}

/// Flushes one finished row of the multi-target machine.
fn flush_row_multi(map: &mut MultiMap, tag: &Option<Vec<u8>>, value: &Option<ColMap>)
    requires
        old(map).wf(),
        match *value {
            Option::Some(ref v) => v.wf(),
            Option::None => true,
        },
    ensures
        final(map).wf(),
        final(map)@ == flush_multi(old(map)@, opt_view(*tag), opt_col_view(*value)),
{
    match tag {
        Some(t) => {
            match value {
                Some(v) => {
                    let tt = crate::bytes::trim_bytes(t);
                    if tt.len() > 0 {
                        let mut vc = ColMap::new();
                        let mut i: usize = 0;
                        while i < v.entries.len()
                            invariant
                                0 <= i <= v@.len(),
                                v@.len() == v.entries@.len(),
                                v.wf(),
                                vc@ == v@.take(i as int),
                                vc.wf(),
                            decreases v@.len() - i,
                        {
                            let ghost before = vc@;
                            vc.entries.push(
                                (v.entries[i].0, crate::kvmap::clone_bytes(&v.entries[i].1)),
                            );
                            proof {
                                assert(vc@ =~= before.push((v@[i as int].0, v@[i as int].1)));
                                assert(before.push((v@[i as int].0, v@[i as int].1)) =~= v@.take(
                                    i + 1,
                                ));
                            }
                            i += 1;
                        }
                        proof {
                            assert(v@.take(v@.len() as int) =~= v@);
                        }
                        map.insert(tt, vc);
                    }
                },
                None => {},
            }
        },
        None => {},
    }
}

/// The multi-target extractor: one pass over the cells, adding every
/// requested language's key/value pairs to the mapping at once.
pub fn process_excel_multi_lang(
    cells: &Vec<Cell>,
    tag_index: u32,
    lang_index_vec: &Vec<u32>,
    tag_value_map: &mut MultiMap,
)
    requires
        old(tag_value_map).wf(),
    ensures
        final(tag_value_map).wf(),
        final(tag_value_map)@ == extract_multi_spec(
            old(tag_value_map)@,
            cells_view(cells@),
            tag_index as int,
            lang_index_vec@.map_values(|x: u32| x as int),
        ),
{
    let ghost cv = cells_view(cells@);
    let ghost m0 = tag_value_map@;
    let ghost ti = tag_index as int;
    let ghost cols = lang_index_vec@.map_values(|x: u32| x as int);
    let mut cur_row: Option<u32> = None;
    let mut cur_tag: Option<Vec<u8>> = None;
    let mut cur_value: Option<ColMap> = None;
    let mut i: usize = 0;
    proof {
        assert(cv.take(0) =~= Seq::<GCell>::empty());
    }
    while i < cells.len()
        invariant
            0 <= i <= cells@.len(),
            cv == cells_view(cells@),
            cv.len() == cells@.len(),
            cols == lang_index_vec@.map_values(|x: u32| x as int),
            ti == tag_index as int,
            m0 == old(tag_value_map)@,
            tag_value_map.wf(),
            match cur_value {
                Option::Some(ref v) => v.wf(),
                Option::None => true,
            },
            run_multi(ti, cols, row_multi_init(), m0, cv.take(i as int)) == (RowMultiG {
                row: match cur_row {
                    Option::Some(r) => Option::Some(r as int),
                    Option::None => Option::None,
                },
                tag: opt_view(cur_tag),
                value: opt_col_view(cur_value),
            }, tag_value_map@),
        decreases cells@.len() - i,
    {
        let ghost gc = cv[i as int];
        let ghost st = run_multi(ti, cols, row_multi_init(), m0, cv.take(i as int)).0;
        let ghost gm = tag_value_map@;
        proof {
            reveal_with_fuel(run_multi, 2);
            assert(cv.take(i + 1) =~= cv.take(i as int) + seq![gc]);
            lemma_run_multi_concat(ti, cols, row_multi_init(), m0, cv.take(i as int), seq![gc]);
            assert(seq![gc].skip(1) =~= Seq::<GCell>::empty());
            assert(run_multi(ti, cols, st, gm, seq![gc]) == step_multi(ti, cols, st, gm, gc));
            assert(cells@[i as int]@ == gc);
        }
        let c = &cells[i];
        let mut boundary = false;
        match cur_row {
            Some(r) => {
                if c.row != r {
                    boundary = true;
                }
            },
            None => {},
        }
        if boundary {
            flush_row_multi(tag_value_map, &cur_tag, &cur_value);
            cur_tag = None;
            cur_value = None;
        }
        cur_row = Some(c.row);
        let in_cols = contains_col(lang_index_vec, c.col);
        if c.row == 0 || (c.col != tag_index && !in_cols) {
        } else if c.col == tag_index {
            cur_tag = match &c.value {
                Some(v) => Some(crate::kvmap::clone_bytes(v)),
                None => None,
            };
        } else {
            let captured_text = capture(&c.value);
            let mut inner = match cur_value {
                Some(v) => v,
                None => ColMap::new(),
            };
            inner.insert(c.col, captured_text);
            cur_value = Some(inner);
        }
        i += 1;
    }
    proof {
        assert(cv.take(cv.len() as int) =~= cv);
    }
    flush_row_multi(tag_value_map, &cur_tag, &cur_value);
}

/// One language's slice of a multi-target mapping: the keys whose row
/// captured that language's column, each with that column's text, in mapping
/// order.
pub open spec fn slice_spec(mm: Seq<(Seq<u8>, Seq<(int, Seq<u8>)>)>, idx: int) -> KvSeq
    decreases mm.len(),
{
    if mm.len() == 0 {
        Seq::empty()
    } else {
        (if kv_contains(mm[0].1, idx) {
            seq![(mm[0].0, kv_get(mm[0].1, idx))]
        } else {
            Seq::<(Seq<u8>, Seq<u8>)>::empty()
        }) + slice_spec(mm.skip(1), idx)
    }
}

/// Every key of a slice is a key of the mapping it was sliced from.
pub proof fn lemma_slice_keys(mm: Seq<(Seq<u8>, Seq<(int, Seq<u8>)>)>, idx: int, k: Seq<u8>)
    requires
        kv_contains(slice_spec(mm, idx), k),
    ensures
        kv_contains(mm, k),
    decreases mm.len(),
{
    if mm.len() > 0 {
        let head: KvSeq = if kv_contains(mm[0].1, idx) {
            seq![(mm[0].0, kv_get(mm[0].1, idx))]
        } else {
            Seq::<(Seq<u8>, Seq<u8>)>::empty()
        };
        let s = slice_spec(mm, idx);
        let j = crate::kvmap::kv_index(s, k);
        if j < head.len() {
            assert(mm[0].0 == k);
        } else {
            assert(s[j] == slice_spec(mm.skip(1), idx)[j - head.len()]);
            assert(kv_contains(slice_spec(mm.skip(1), idx), k));
            lemma_slice_keys(mm.skip(1), idx, k);
            let l = crate::kvmap::kv_index(mm.skip(1), k);
            assert(mm[l + 1].0 == k);
        }
    }
}

/// Slices over a split mapping compose.
pub proof fn lemma_slice_concat(
    a: Seq<(Seq<u8>, Seq<(int, Seq<u8>)>)>,
    b: Seq<(Seq<u8>, Seq<(int, Seq<u8>)>)>,
    idx: int,
)
    ensures
        slice_spec(a + b, idx) == slice_spec(a, idx) + slice_spec(b, idx),
    decreases a.len(),
{
    if a.len() == 0 {
        assert(a + b =~= b);
        assert(slice_spec(a, idx) + slice_spec(b, idx) =~= slice_spec(b, idx));
    } else {
        assert((a + b)[0] == a[0]);
        assert((a + b).skip(1) =~= a.skip(1) + b);
        lemma_slice_concat(a.skip(1), b, idx);
        let head: KvSeq = if kv_contains(a[0].1, idx) {
            seq![(a[0].0, kv_get(a[0].1, idx))]
        } else {
            Seq::<(Seq<u8>, Seq<u8>)>::empty()
        };
        assert((head + slice_spec(a.skip(1), idx)) + slice_spec(b, idx) =~= head + (slice_spec(
            a.skip(1),
            idx,
        ) + slice_spec(b, idx)));
    }
}

/// Extracts one language's key/value mapping from a multi-target mapping.
pub fn slice_lang(mm: &MultiMap, index: u32) -> (r: KvMap)
    requires
        mm.wf(),
    ensures
        r.wf(),
        r@ == slice_spec(mm@, index as int),
{
    let ghost idx = index as int;
    let mut r = KvMap::new();
    let mut i: usize = 0;
    proof {
        assert(mm@.take(0) =~= Seq::<(Seq<u8>, Seq<(int, Seq<u8>)>)>::empty());
        assert(r@ =~= slice_spec(mm@.take(0), idx));
    }
    while i < mm.len()
        invariant
            0 <= i <= mm@.len(),
            mm.wf(),
            r.wf(),
            idx == index as int,
            r@ == slice_spec(mm@.take(i as int), idx),
        decreases mm@.len() - i,
    {
        let ghost prefix = slice_spec(mm@.take(i as int), idx);
        proof {
            reveal_with_fuel(slice_spec, 2);
            assert(mm@.take(i + 1) =~= mm@.take(i as int) + seq![mm@[i as int]]);
            lemma_slice_concat(mm@.take(i as int), seq![mm@[i as int]], idx);
            assert(seq![mm@[i as int]].skip(1) =~= Seq::<(Seq<u8>, Seq<(int, Seq<u8>)>)>::empty());
        }
        let inner = mm.value_at(i);
        match inner.get(index) {
            Some(v) => {
                let k = crate::kvmap::clone_bytes(mm.key_at(i));
                proof {
                    assert(!kv_contains(r@, k@)) by {
                        if kv_contains(r@, k@) {
                            lemma_slice_keys(mm@.take(i as int), idx, k@);
                            let l = crate::kvmap::kv_index(mm@.take(i as int), k@);
                            assert(0 <= l < i && mm@.take(i as int)[l].0 == k@);
                            assert(mm@[l].0 == k@);
                            assert(mm@[i as int].0 == k@);
                        }
                    };
                    crate::kvmap::lemma_kv_insert(r@, k@, v@);
                }
                r.insert(k, crate::kvmap::clone_bytes(v));
                proof {
                    assert(r@ =~= prefix + seq![(mm@[i as int].0, kv_get(mm@[i as int].1, idx))]);
                }
            },
            None => {
                proof {
                    assert(prefix + Seq::<(Seq<u8>, Seq<u8>)>::empty() =~= prefix);
                }
            },
        }
        i += 1;
    }
    proof {
        assert(mm@.take(mm@.len() as int) =~= mm@);
    }
    r
}

} // verus!
