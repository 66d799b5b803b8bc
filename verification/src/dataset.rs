//! The dataset: named, schema-typed columns of equal length.
//!
//! A dataset owns an ordered set of named columns, one kind per column,
//! every column the same length.  It is built from raw delimited records in
//! two passes — schema inference, then typed construction — and supports
//! null-row removal, target-column promotion, and a randomized in-place
//! train/test partition.

use vstd::prelude::*;
use vstd::seq_lib::lemma_multiset_commutative;
use vstd::seq_lib::to_multiset_update;
use vstd::string::StringExecFns;
use crate::column::{
    ValueVec, filter_by_mask, count_true, lemma_filter_by_mask_len, swap_in_vec,
    clone_string_vec,
};
use crate::parse::{parse_i64, is_float_literal, str_eq};
use crate::schema::{
    cell_kind, infer_step, infer_fold, inferred_kind, lemma_infer_fold_push, lemma_round_trip_int,
};
use crate::parse::{is_int_text, int_text_value, lemma_int_text_is_float_text};
use crate::value::{Kind, ValueModel};
use crate::random_state::RandomState;

verus! {

/// An in-memory table: a name, a schema, one column per schema entry, and
/// two flags marking a training set and a designated target column.
#[derive(Debug)]
pub struct Dataset {
    pub name: String,
    pub schema: Vec<(String, Kind)>,
    pub data: Vec<ValueVec>,
    pub train: bool,
    pub has_target: bool,
}

/// The row of `data` at index `r`, as the tuple of every column's entry.
pub open spec fn row_at(data: Seq<ValueVec>, r: int) -> Seq<Option<ValueModel>> {
    Seq::new(data.len(), |c: int| data[c]@[r])
}

/// The first `n` rows of `data`, each as a tuple.
pub open spec fn rows_of(data: Seq<ValueVec>, n: int) -> Seq<Seq<Option<ValueModel>>> {
    Seq::new(n as nat, |r: int| row_at(data, r))
}

/// Some column of `data` holds a null at row `r`.
pub open spec fn row_has_none(data: Seq<ValueVec>, r: int) -> bool {
    exists|c: int| 0 <= c < data.len() && data[c]@[r] is None
}

/// One entry per row: true when no column holds a null there.
pub open spec fn keep_mask(data: Seq<ValueVec>, n: int) -> Seq<bool> {
    Seq::new(n as nat, |r: int| !row_has_none(data, r))
}

/// The texts of column `c` over all rows.
pub open spec fn col_texts(rows: Seq<Seq<Seq<char>>>, c: int) -> Seq<Seq<char>> {
    Seq::new(rows.len(), |r: int| rows[r][c])
}

/// The texts of column `c` over the first `n` rows.
pub open spec fn col_texts_prefix(rows: Seq<Seq<Seq<char>>>, c: int, n: int) -> Seq<Seq<char>> {
    Seq::new(n as nat, |r: int| rows[r][c])
}

/// The raw records as sequences of character sequences.
pub open spec fn rows_view(records: Seq<Vec<String>>) -> Seq<Seq<Seq<char>>> {
    Seq::new(records.len(), |r: int| Seq::new(records[r]@.len(), |c: int| records[r]@[c]@))
}

/// The stored form of one raw field in a column of kind `k`: an empty field
/// is a null, and a non-empty field carries the kind's scalar.
pub open spec fn typed_cell(k: Kind, t: Seq<char>) -> Option<ValueModel> {
    if t.len() == 0 {
        None
    } else {
        match k {
            Kind::Int => Some(ValueModel::Int(int_text_value(t) as i64)),
            Kind::Float => Some(ValueModel::Float(t)),
            Kind::Str => Some(ValueModel::Str(t)),
        }
    }
}

/// The position of the first schema entry named `name`, or the schema's
/// length when there is none.
pub open spec fn named_index(schema: Seq<(String, Kind)>, name: Seq<char>) -> int
    decreases schema.len(),
{
    if schema.len() == 0 {
        0
    } else if schema[0].0@ == name {
        0
    } else {
        1 + named_index(schema.drop_first(), name)
    }
}

/// Some schema entry is named `name`.
pub open spec fn has_column(schema: Seq<(String, Kind)>, name: Seq<char>) -> bool {
    named_index(schema, name) < schema.len()
}

proof fn lemma_named_index(schema: Seq<(String, Kind)>, name: Seq<char>)
    ensures
        0 <= named_index(schema, name) <= schema.len(),
        forall|i: int| 0 <= i < named_index(schema, name) ==> schema[i].0@ != name,
        named_index(schema, name) < schema.len() ==> schema[named_index(schema, name)].0@
            == name,
    decreases schema.len(),
{
    if schema.len() > 0 && schema[0].0@ != name {
        let rest = schema.drop_first();
        lemma_named_index(rest, name);
        assert forall|i: int|
            0 <= i < named_index(schema, name) implies schema[i].0@ != name by {
            if i > 0 {
                assert(rest[i - 1] == schema[i]);
            }
        }
        if named_index(schema, name) < schema.len() {
            assert(rest[named_index(rest, name)] == schema[named_index(schema, name)]);
        }
    }
}

/// Target promotion: exchanging the column named `name` with the last one
/// leaves `name` on the last schema entry and the values that stood under
/// `name` in the last column — which is what [`Dataset::target`] returns
/// after [`Dataset::set_target`].
pub proof fn lemma_target_promotion(sch: Seq<(String, Kind)>, cols: Seq<ValueVec>, name: Seq<char>)
    requires
        sch.len() == cols.len(),
        sch.len() > 0,
        has_column(sch, name),
    ensures
        ({
            let i = named_index(sch, name);
            let last = sch.len() - 1;
            &&& sch.update(i, sch[last]).update(last, sch[i]).last().0@ == name
            &&& cols.update(i, cols[last]).update(last, cols[i]).last() == cols[i]
        }),
{
    lemma_named_index(sch, name);
}

impl Dataset {
    /// The number of rows, read off the first column.
    pub open spec fn nrows(self) -> int {
        if self.data@.len() == 0 {
            0
        } else {
            self.data@[0]@.len() as int
        }
    }

    /// Well-formedness: schema and columns are parallel, every column's
    /// runtime variant matches its declared kind, all columns have equal
    /// length, and column names are unique.
    pub open spec fn wf(self) -> bool {
        &&& self.schema@.len() == self.data@.len()
        &&& forall|c: int|
            0 <= c < self.data@.len() ==> (#[trigger] self.data@[c]).kind() == self.schema@[c].1
        &&& forall|c: int|
            0 <= c < self.data@.len() ==> (#[trigger] self.data@[c])@.len() == self.nrows()
        &&& forall|i: int, j: int|
            0 <= i < j < self.schema@.len() ==> self.schema@[i].0@ != self.schema@[j].0@
    }

    /// The number of rows, nulls included.
    pub fn len(&self) -> (n: usize)
        requires
            self.data@.len() > 0,
        ensures
            n == self.nrows(),
    {
        self.data[0].len()
    }

    /// A copy of the last column — the target, once [`Dataset::set_target`]
    /// has promoted it there.
    pub fn target(&self) -> (r: ValueVec)
        requires
            self.data@.len() > 0,
        ensures
            r.kind() == self.data@.last().kind(),
            r@ == self.data@.last()@,
    {
        let n = self.data.len();
        self.data[n - 1].clone()
    }

    /// Promotes the column named `target` to the last position, swapping it
    /// and its schema entry with the last column.  A dataset without a
    /// target concept, or an unknown name, is left untouched.
    #[verifier::loop_isolation(false)]
    pub fn set_target(&mut self, target: &str)
        requires
            old(self).wf(),
        ensures
            final(self).wf(),
            final(self).name == old(self).name,
            final(self).train == old(self).train,
            final(self).has_target == old(self).has_target,
            final(self).nrows() == old(self).nrows(),
            ({
                let sch = old(self).schema@;
                let cols = old(self).data@;
                if old(self).has_target && has_column(sch, target@) {
                    let i = named_index(sch, target@);
                    let last = sch.len() - 1;
                    &&& final(self).schema@ == sch.update(i, sch[last]).update(last, sch[i])
                    &&& final(self).data@ == cols.update(i, cols[last]).update(last, cols[i])
                } else {
                    &&& final(self).schema@ == sch
                    &&& final(self).data@ == cols
                }
            }),
    {
        proof {
            lemma_named_index(old(self).schema@, target@);
        }
        if !self.has_target {
            return ;
        }
        let n = self.schema.len();
        let mut i: usize = 0;
        while i < n
            invariant
                *self == *old(self),
                n == self.schema@.len(),
                0 <= i <= n,
                forall|k: int| 0 <= k < i ==> self.schema@[k].0@ != target@,
            decreases n - i,
        {
            if str_eq(self.schema[i].0.as_str(), target) {
                assert(i == named_index(old(self).schema@, target@));
                let ghost sch = old(self).schema@;
                let ghost cols = old(self).data@;
                swap_in_vec(&mut self.schema, i, n - 1);
                swap_in_vec(&mut self.data, i, n - 1);
                proof {
                    let fs = self.schema@;
                    assert forall|a: int, b: int|
                        0 <= a < b < fs.len() implies fs[a].0@ != fs[b].0@ by {
                        assert(sch[a].0@ != sch[b].0@);
                        assert(sch[b].0@ != sch[a].0@);
                    }
                    assert(self.nrows() == old(self).nrows()) by {
                        assert(self.data@[0]@.len() == cols[0]@.len());
                    }
                }
                return ;
            }
            i = i + 1;
        }
        assert(!has_column(old(self).schema@, target@));
    }

    /// Drops every row that holds a null in any column; all columns shrink
    /// consistently, so their lengths stay equal.  The new length is the
    /// number of rows that had no null at all.
    #[verifier::loop_isolation(false)]
    pub fn remove_nones(&mut self)
        requires
            old(self).wf(),
        ensures
            final(self).wf(),
            final(self).name == old(self).name,
            final(self).schema@ == old(self).schema@,
            final(self).train == old(self).train,
            final(self).has_target == old(self).has_target,
            final(self).data@.len() == old(self).data@.len(),
            forall|c: int|
                0 <= c < old(self).data@.len() ==> (#[trigger] final(self).data@[c])@
                    == filter_by_mask(
                    old(self).data@[c]@,
                    keep_mask(old(self).data@, old(self).nrows()),
                ),
            final(self).nrows() == count_true(keep_mask(old(self).data@, old(self).nrows())),
    {
        let ncols = self.data.len();
        if ncols == 0 {
            proof {
                assert(keep_mask(old(self).data@, 0) =~= Seq::<bool>::empty());
            }
            return ;
        }
        let n = self.data[0].len();
        let ghost orig = old(self).data@;
        let ghost mask = keep_mask(orig, n as int);
        let mut keep: Vec<bool> = Vec::new();
        let mut r: usize = 0;
        while r < n
            invariant
                r <= n,
                keep@.len() == r,
                forall|ri: int| 0 <= ri < r ==> keep@[ri],
            decreases n - r,
        {
            keep.push(true);
            r = r + 1;
        }
        let mut c: usize = 0;
        while c < ncols
            invariant
                c <= ncols,
                keep@.len() == n,
                *self == *old(self),
                forall|ri: int|
                    0 <= ri < n ==> (keep@[ri] <==> !(exists|ci: int|
                        0 <= ci < c && orig[ci]@[ri] is None)),
            decreases ncols - c,
        {
            let mut r2: usize = 0;
            while r2 < n
                invariant
                    c < ncols,
                    r2 <= n,
                    keep@.len() == n,
                    *self == *old(self),
                    forall|ri: int|
                        0 <= ri < r2 ==> (keep@[ri] <==> !(exists|ci: int|
                            0 <= ci < c + 1 && orig[ci]@[ri] is None)),
                    forall|ri: int|
                        r2 <= ri < n ==> (keep@[ri] <==> !(exists|ci: int|
                            0 <= ci < c && orig[ci]@[ri] is None)),
                decreases n - r2,
            {
                if self.data[c].is_null(r2) {
                    keep[r2] = false;
                }
                r2 = r2 + 1;
            }
            c = c + 1;
        }
        proof {
            assert(keep@ =~= mask);
        }
        let mut c2: usize = 0;
        while c2 < ncols
            invariant
                c2 <= ncols,
                keep@ == mask,
                self.data@.len() == ncols,
                self.schema@ == old(self).schema@,
                self.name == old(self).name,
                self.train == old(self).train,
                self.has_target == old(self).has_target,
                forall|j: int|
                    0 <= j < c2 ==> (#[trigger] self.data@[j]).kind() == orig[j].kind()
                        && self.data@[j]@ == filter_by_mask(orig[j]@, mask),
                forall|j: int| c2 <= j < ncols ==> self.data@[j] == orig[j],
            decreases ncols - c2,
        {
            self.data[c2].retain_by_mask(&keep);
            c2 = c2 + 1;
        }
        proof {
            assert forall|j: int| 0 <= j < ncols implies (#[trigger] self.data@[j])@.len()
                == count_true(mask) by {
                lemma_filter_by_mask_len(orig[j]@, mask);
            }
        }
    }
}

/// The buffered form of one raw field: a null for an empty field, the text
/// itself otherwise.
spec fn cell_ok(cell: Option<String>, t: Seq<char>) -> bool {
    match cell {
        None => t.len() == 0,
        Some(s) => s@ == t && t.len() > 0,
    }
}

/// The model of one entry of an integer column.
spec fn int_cell_model(x: Option<i64>) -> Option<ValueModel> {
    match x {
        None => None,
        Some(i) => Some(ValueModel::Int(i)),
    }
}

/// The kind of one non-empty field, decided by the two grammars.
fn classify(s: &str) -> (k: Kind)
    ensures
        k == cell_kind(s@),
{
    if parse_i64(s).is_some() {
        Kind::Int
    } else if is_float_literal(s) {
        Kind::Float
    } else {
        Kind::Str
    }
}

impl Dataset {
    /// Builds a dataset from a header row and raw records, in two passes:
    /// the first buffers every field as text and infers each column's kind,
    /// the second re-reads each buffered column into its typed form.  Every
    /// record must have exactly one field per header entry, and the header
    /// names must be distinct.
    #[verifier::loop_isolation(false)]
    #[verifier::rlimit(80)]
    pub fn from_records(
        name: String,
        header: Vec<String>,
        records: Vec<Vec<String>>,
        train: bool,
    ) -> (d: Dataset)
        requires
            forall|r: int|
                0 <= r < records@.len() ==> (#[trigger] records@[r])@.len() == header@.len(),
            forall|i: int, j: int| 0 <= i < j < header@.len() ==> header@[i]@ != header@[j]@,
        ensures
            d.wf(),
            d.name == name,
            d.train == train,
            d.has_target == train,
            d.schema@.len() == header@.len(),
            d.data@.len() == header@.len(),
            forall|c: int| 0 <= c < header@.len() ==> (#[trigger] d.schema@[c]).0 == header@[c],
            forall|c: int|
                0 <= c < header@.len() ==> (#[trigger] d.schema@[c]).1 == inferred_kind(
                    col_texts(rows_view(records@), c),
                ),
            header@.len() > 0 ==> d.nrows() == records@.len(),
            forall|c: int, r: int|
                0 <= c < header@.len() && 0 <= r < records@.len()
                    ==> #[trigger] d.data@[c]@[r] == typed_cell(
                    d.schema@[c].1,
                    rows_view(records@)[r][c],
                ),
    {
        let ncols = header.len();
        let nrecs = records.len();
        let ghost rows = rows_view(records@);
        // Pass 1: buffer every field as raw text, fold each into its
        // column's running kind.
        let mut raw: Vec<Vec<Option<String>>> = Vec::new();
        let mut states: Vec<Option<Kind>> = Vec::new();
        let mut c0: usize = 0;
        while c0 < ncols
            invariant
                c0 <= ncols,
                raw@.len() == c0,
                states@.len() == c0,
                forall|c: int| 0 <= c < c0 ==> (#[trigger] raw@[c])@.len() == 0,
                forall|c: int| 0 <= c < c0 ==> states@[c] is None,
            decreases ncols - c0,
        {
            raw.push(Vec::new());
            states.push(None);
            c0 = c0 + 1;
        }
        assert(forall|c: int|
            0 <= c < ncols ==> col_texts_prefix(rows, c, 0) =~= Seq::<Seq<char>>::empty());
        let mut r: usize = 0;
        while r < nrecs
            invariant
                r <= nrecs,
                raw@.len() == ncols,
                states@.len() == ncols,
                forall|c: int| 0 <= c < ncols ==> (#[trigger] raw@[c])@.len() == r,
                forall|c: int, ri: int|
                    0 <= c < ncols && 0 <= ri < r ==> cell_ok(
                        #[trigger] raw@[c]@[ri],
                        rows[ri][c],
                    ),
                forall|c: int|
                    0 <= c < ncols ==> states@[c] == infer_fold(
                        col_texts_prefix(rows, c, r as int),
                        None,
                    ),
            decreases nrecs - r,
        {
            let rec = &records[r];
            let mut ci: usize = 0;
            while ci < ncols
                invariant
                    ci <= ncols,
                    r < nrecs,
                    raw@.len() == ncols,
                    states@.len() == ncols,
                    forall|c: int| 0 <= c < ci ==> (#[trigger] raw@[c])@.len() == r + 1,
                    forall|c: int| ci <= c < ncols ==> (#[trigger] raw@[c])@.len() == r,
                    forall|c: int, ri: int|
                        0 <= c < ncols && 0 <= ri < r ==> cell_ok(
                            #[trigger] raw@[c]@[ri],
                            rows[ri][c],
                        ),
                    forall|c: int|
                        0 <= c < ci ==> cell_ok(#[trigger] raw@[c]@[r as int], rows[r as int][c]),
                    forall|c: int|
                        ci <= c < ncols ==> states@[c] == infer_fold(
                            col_texts_prefix(rows, c, r as int),
                            None,
                        ),
                    forall|c: int|
                        0 <= c < ci ==> states@[c] == infer_fold(
                            col_texts_prefix(rows, c, r as int + 1),
                            None,
                        ),
                decreases ncols - ci,
            {
                let field = &rec[ci];
                let ghost t = rows[r as int][ci as int];
                assert(field@ == t);
                let ghost prev_state = states@[ci as int];
                let flen = field.as_str().unicode_len();
                if flen == 0 {
                    raw[ci].push(None);
                } else {
                    raw[ci].push(Some(field.clone()));
                    let knew: Kind = match states[ci] {
                        None => classify(field.as_str()),
                        Some(Kind::Int) => classify(field.as_str()),
                        Some(Kind::Float) => {
                            if is_float_literal(field.as_str()) {
                                Kind::Float
                            } else {
                                Kind::Str
                            }
                        },
                        Some(Kind::Str) => Kind::Str,
                    };
                    states[ci] = Some(knew);
                    proof {
                        if prev_state == Some(Kind::Float) && is_int_text(t) {
                            lemma_int_text_is_float_text(t);
                        }
                        assert(Some(knew) == infer_step(prev_state, t));
                    }
                }
                proof {
                    lemma_infer_fold_push(col_texts_prefix(rows, ci as int, r as int), t, None);
                    assert(col_texts_prefix(rows, ci as int, r as int + 1) =~= col_texts_prefix(
                        rows,
                        ci as int,
                        r as int,
                    ).push(t));
                }
                ci = ci + 1;
            }
            r = r + 1;
        }
        // Pass 2: re-read each buffered column into its inferred kind.
        let mut data: Vec<ValueVec> = Vec::new();
        let mut schema: Vec<(String, Kind)> = Vec::new();
        let mut c: usize = 0;
        while c < ncols
            invariant
                c <= ncols,
                raw@.len() == ncols,
                states@.len() == ncols,
                forall|j: int| 0 <= j < ncols ==> (#[trigger] raw@[j])@.len() == nrecs,
                forall|j: int, ri: int|
                    0 <= j < ncols && 0 <= ri < nrecs ==> cell_ok(
                        #[trigger] raw@[j]@[ri],
                        rows[ri][j],
                    ),
                forall|j: int|
                    0 <= j < ncols ==> states@[j] == infer_fold(
                        col_texts_prefix(rows, j, nrecs as int),
                        None,
                    ),
                data@.len() == c,
                schema@.len() == c,
                forall|j: int| 0 <= j < c ==> (#[trigger] schema@[j]).0 == header@[j],
                forall|j: int|
                    0 <= j < c ==> (#[trigger] schema@[j]).1 == inferred_kind(col_texts(rows, j)),
                forall|j: int| 0 <= j < c ==> (#[trigger] data@[j]).kind() == schema@[j].1,
                forall|j: int| 0 <= j < c ==> (#[trigger] data@[j])@.len() == nrecs,
                forall|j: int, ri: int|
                    0 <= j < c && 0 <= ri < nrecs ==> #[trigger] data@[j]@[ri] == typed_cell(
                        schema@[j].1,
                        rows[ri][j],
                    ),
            decreases ncols - c,
        {
            proof {
                assert(col_texts_prefix(rows, c as int, nrecs as int) =~= col_texts(
                    rows,
                    c as int,
                ));
            }
            let kind_c: Kind = match states[c] {
                None => Kind::Str,
                Some(kk) => kk,
            };
            assert(kind_c == inferred_kind(col_texts(rows, c as int)));
            let rawc = &raw[c];
            let col: ValueVec = match kind_c {
                Kind::Int => {
                    proof {
                        lemma_round_trip_int(col_texts(rows, c as int));
                    }
                    let mut v: Vec<Option<i64>> = Vec::new();
                    let mut ri: usize = 0;
                    while ri < nrecs
                        invariant
                            ri <= nrecs,
                            v@.len() == ri,
                            c < ncols,
                            kind_c == Kind::Int,
                            forall|q: int|
                                0 <= q < ri ==> int_cell_model(#[trigger] v@[q]) == typed_cell(
                                    Kind::Int,
                                    rows[q][c as int],
                                ),
                        decreases nrecs - ri,
                    {
                        let ghost t = rows[ri as int][c as int];
                        match rawc[ri].as_ref() {
                            None => {
                                v.push(None);
                            },
                            Some(s) => {
                                assert(s@ == t && t.len() > 0);
                                assert(is_int_text(t)) by {
                                    assert(col_texts(rows, c as int)[ri as int] == t);
                                }
                                match parse_i64(s.as_str()) {
                                    Some(x) => {
                                        v.push(Some(x));
                                    },
                                    None => {
                                        assert(false);
                                        v.push(None);
                                    },
                                }
                            },
                        }
                        ri = ri + 1;
                    }
                    ValueVec::Int(v)
                },
                Kind::Float => ValueVec::Float(clone_string_vec(rawc)),
                Kind::Str => ValueVec::Str(clone_string_vec(rawc)),
            };
            assert(col.kind() == kind_c);
            assert(col@.len() == nrecs);
            assert forall|ri: int|
                0 <= ri < nrecs implies #[trigger] col@[ri] == typed_cell(
                kind_c,
                rows[ri][c as int],
            ) by {
                assert(cell_ok(raw@[c as int]@[ri], rows[ri][c as int]));
            }
            let hname = header[c].clone();
            schema.push((hname, kind_c));
            data.push(col);
            c = c + 1;
        }
        Dataset { name, schema, data, train, has_target: train }
    }
}

/// How much of a dataset the split sets aside: either a share of the rows
/// (`num` out of `den`, rounded down) or an absolute row count.
#[derive(Debug, Clone, Copy)]
pub enum SplitSize {
    Frac(usize, usize),
    Count(usize),
}

/// `num / den` of `len` rows, rounded down.
pub open spec fn frac_of(len: int, num: int, den: int) -> int {
    len * num / den
}

/// How many rows the test set receives, for a dataset of `len` rows.  A
/// given `test_size` wins over `train_size`; with neither, three rows in
/// ten are set aside.
pub open spec fn test_count(
    len: int,
    test_size: Option<SplitSize>,
    train_size: Option<SplitSize>,
) -> int {
    match test_size {
        Some(SplitSize::Frac(num, den)) => frac_of(len, num as int, den as int),
        Some(SplitSize::Count(k)) => k as int,
        None => match train_size {
            Some(SplitSize::Frac(num, den)) => len - frac_of(len, num as int, den as int),
            Some(SplitSize::Count(c)) => len - c as int,
            None => frac_of(len, 3, 10),
        },
    }
}

/// The size arguments a split accepts: a share must be below one, a count
/// must not exceed the rows at hand.
pub open spec fn valid_sizes(
    len: int,
    test_size: Option<SplitSize>,
    train_size: Option<SplitSize>,
) -> bool {
    match test_size {
        Some(SplitSize::Frac(num, den)) => num < den,
        Some(SplitSize::Count(k)) => k <= len,
        None => match train_size {
            Some(SplitSize::Frac(num, den)) => num < den,
            Some(SplitSize::Count(c)) => c <= len,
            None => true,
        },
    }
}

/// `num / den` of `len`, rounded down; never more than `len`.
fn frac_count(len: usize, num: usize, den: usize) -> (k: usize)
    requires
        num < den,
    ensures
        k == frac_of(len as int, num as int, den as int),
        k <= len,
{
    let ghost l = len as int;
    let ghost m = num as int;
    proof {
        assert(l * m <= 0xFFFFFFFFFFFFFFFFu64 as int * (0xFFFFFFFFFFFFFFFFu64 as int))
            by (nonlinear_arith)
            requires
                0 <= l,
                0 <= m,
                l <= 0xFFFFFFFFFFFFFFFFu64 as int,
                m <= 0xFFFFFFFFFFFFFFFFu64 as int,
        ;
    }
    let p: u128 = (len as u128) * (num as u128);
    let q: u128 = p / (den as u128);
    proof {
        assert(len as int * num as int <= len as int * den as int) by (nonlinear_arith)
            requires
                0 <= len as int,
                num as int <= den as int,
        ;
        vstd::arithmetic::div_mod::lemma_div_is_ordered(
            len as int * num as int,
            len as int * den as int,
            den as int,
        );
        vstd::arithmetic::div_mod::lemma_div_by_multiple(len as int, den as int);
    }
    q as usize
}

/// Exchanging two elements of a sequence keeps its multiset of elements.
proof fn lemma_swap_multiset<A>(s: Seq<A>, a: int, b: int)
    requires
        0 <= a < s.len(),
        0 <= b < s.len(),
    ensures
        s.update(a, s[b]).update(b, s[a]).to_multiset() == s.to_multiset(),
{
    broadcast use vstd::seq_lib::group_to_multiset_ensures;
    broadcast use vstd::multiset::group_multiset_axioms;

    if a == b {
        assert(s.update(a, s[b]).update(b, s[a]) =~= s);
    } else {
        let s1 = s.update(a, s[b]);
        to_multiset_update(s, a, s[b]);
        to_multiset_update(s1, b, s[a]);
        assert(s.contains(s[a]));
        assert(s.contains(s[b]));
        assert(s.to_multiset().count(s[a]) > 0);
        assert(s.to_multiset().count(s[b]) > 0);
        assert(s1[b] == s[b]);
        assert(s.update(a, s[b]).update(b, s[a]).to_multiset() =~= s.to_multiset());
    }
}

/// Exchanges rows `a` and `b` in every column at once, so no column can
/// fall out of step; the multiset of whole rows is untouched.
#[verifier::loop_isolation(false)]
fn swap_rows(data: &mut Vec<ValueVec>, a: usize, b: usize, Ghost(n): Ghost<int>)
    requires
        forall|c: int| 0 <= c < old(data)@.len() ==> (#[trigger] old(data)@[c])@.len() == n,
        a < n,
        b < n,
    ensures
        final(data)@.len() == old(data)@.len(),
        forall|c: int|
            0 <= c < old(data)@.len() ==> (#[trigger] final(data)@[c]).kind()
                == old(data)@[c].kind() && final(data)@[c]@.len() == n,
        rows_of(final(data)@, n).to_multiset() == rows_of(old(data)@, n).to_multiset(),
{
    let ncols = data.len();
    let mut c: usize = 0;
    while c < ncols
        invariant
            c <= ncols,
            data@.len() == ncols,
            forall|j: int|
                0 <= j < c ==> (#[trigger] data@[j]).kind() == old(data)@[j].kind() && data@[j]@
                    == old(data)@[j]@.update(a as int, old(data)@[j]@[b as int]).update(
                    b as int,
                    old(data)@[j]@[a as int],
                ),
            forall|j: int| c <= j < ncols ==> data@[j] == old(data)@[j],
        decreases ncols - c,
    {
        self_swap(data, c, a, b);
        c = c + 1;
    }
    proof {
        let before = rows_of(old(data)@, n);
        let after = rows_of(data@, n);
        let swapped = before.update(a as int, before[b as int]).update(b as int, before[a as int]);
        assert forall|r: int| 0 <= r < n implies after[r] == swapped[r] by {
            if r == b as int {
                assert(after[r] =~= before[a as int]);
            } else if r == a as int {
                assert(after[r] =~= before[b as int]);
            } else {
                assert(after[r] =~= before[r]);
            }
        }
        assert(after =~= swapped);
        lemma_swap_multiset(before, a as int, b as int);
    }
}

/// One column's part of a whole-row exchange.
fn self_swap(data: &mut Vec<ValueVec>, c: usize, a: usize, b: usize)
    requires
        c < old(data)@.len(),
        a < old(data)@[c as int]@.len(),
        b < old(data)@[c as int]@.len(),
    ensures
        final(data)@.len() == old(data)@.len(),
        forall|j: int| 0 <= j < old(data)@.len() && j != c ==> final(data)@[j] == old(data)@[j],
        final(data)@[c as int].kind() == old(data)@[c as int].kind(),
        final(data)@[c as int]@ == old(data)@[c as int]@.update(
            a as int,
            old(data)@[c as int]@[b as int],
        ).update(b as int, old(data)@[c as int]@[a as int]),
{
    data[c].swap(a, b);
}

/// Copies a schema, entry for entry.
fn clone_schema(v: &Vec<(String, Kind)>) -> (r: Vec<(String, Kind)>)
    ensures
        r@ == v@,
{
    let mut out: Vec<(String, Kind)> = Vec::new();
    let mut i: usize = 0;
    while i < v.len()
        invariant
            i <= v@.len(),
            out@ == v@.subrange(0, i as int),
        decreases v@.len() - i,
    {
        let name = v[i].0.clone();
        let kind = v[i].1;
        out.push((name, kind));
        assert(out@ =~= v@.subrange(0, i as int + 1));
        i = i + 1;
    }
    assert(out@ =~= v@);
    out
}

impl Dataset {
    /// Partitions a training dataset into a train part and a test part.
    ///
    /// The test part receives [`test_count`] rows, chosen without
    /// replacement by a partial in-place shuffle: each round draws a
    /// uniform index below the unshuffled length and moves that row to the
    /// back, every column in lock-step.  The drawn rows are then physically
    /// split off into a new dataset suffixed `_test`; the remaining rows
    /// keep their storage under a name suffixed `_train`.  Together the two
    /// parts hold exactly the rows of the input, as whole tuples.
    #[verifier::loop_isolation(false)]
    pub fn split(
        self,
        test_size: Option<SplitSize>,
        train_size: Option<SplitSize>,
        random_state: &mut RandomState,
    ) -> (r: (Dataset, Dataset))
        requires
            self.wf(),
            self.train,
            self.data@.len() > 0,
            valid_sizes(self.nrows(), test_size, train_size),
        ensures
            r.0.wf(),
            r.1.wf(),
            r.0.schema@ == self.schema@,
            r.1.schema@ == self.schema@,
            r.0.name@ == self.name@ + "_train"@,
            r.1.name@ == self.name@ + "_test"@,
            r.0.train == true,
            r.1.train == false,
            r.0.has_target == self.has_target,
            r.1.has_target == self.has_target,
            r.1.nrows() == test_count(self.nrows(), test_size, train_size),
            r.0.nrows() + r.1.nrows() == self.nrows(),
            (rows_of(r.0.data@, r.0.nrows()) + rows_of(r.1.data@, r.1.nrows())).to_multiset()
                == rows_of(self.data@, self.nrows()).to_multiset(),
    {
        let mut this = self;
        let len = this.len();
        let ncols = this.data.len();
        let k: usize = match (test_size, train_size) {
            (Some(SplitSize::Frac(num, den)), _) => frac_count(len, num, den),
            (Some(SplitSize::Count(count)), _) => count,
            (None, Some(SplitSize::Frac(num, den))) => len - frac_count(len, num, den),
            (None, Some(SplitSize::Count(count))) => len - count,
            (None, None) => frac_count(len, 3, 10),
        };
        assert(k as int == test_count(self.nrows(), test_size, train_size));
        assert(k <= len);
        let ghost orig_rows = rows_of(this.data@, len as int);
        let mut i: usize = 0;
        while i < k
            invariant
                i <= k,
                this.data@.len() == ncols,
                this.schema@ == self.schema@,
                this.name == self.name,
                this.train == self.train,
                this.has_target == self.has_target,
                forall|c: int|
                    0 <= c < ncols ==> (#[trigger] this.data@[c]).kind() == self.data@[c].kind()
                        && this.data@[c]@.len() == len,
                rows_of(this.data@, len as int).to_multiset() == orig_rows.to_multiset(),
            decreases k - i,
        {
            let draw = random_state.gen();
            let idx = draw % (len - i);
            swap_rows(&mut this.data, idx, len - i - 1, Ghost(len as int));
            i = i + 1;
        }
        let t = len - k;
        let ghost shuffled = this.data@;
        let mut new_data: Vec<ValueVec> = Vec::new();
        let mut c: usize = 0;
        while c < ncols
            invariant
                c <= ncols,
                this.data@.len() == ncols,
                new_data@.len() == c,
                this.schema@ == self.schema@,
                this.name == self.name,
                this.train == self.train,
                this.has_target == self.has_target,
                forall|j: int|
                    0 <= j < c ==> (#[trigger] this.data@[j]).kind() == shuffled[j].kind()
                        && this.data@[j]@ == shuffled[j]@.subrange(0, t as int),
                forall|j: int|
                    0 <= j < c ==> (#[trigger] new_data@[j]).kind() == shuffled[j].kind()
                        && new_data@[j]@ == shuffled[j]@.subrange(t as int, len as int),
                forall|j: int| c <= j < ncols ==> this.data@[j] == shuffled[j],
            decreases ncols - c,
        {
            let part = this.data[c].split_off(t);
            new_data.push(part);
            c = c + 1;
        }
        proof {
            let train_rows = rows_of(this.data@, t as int);
            let test_rows = rows_of(new_data@, k as int);
            assert forall|r: int|
                0 <= r < len implies rows_of(shuffled, len as int)[r] == (train_rows
                + test_rows)[r] by {
                if r < t {
                    assert(rows_of(shuffled, len as int)[r] =~= train_rows[r]);
                } else {
                    assert(rows_of(shuffled, len as int)[r] =~= test_rows[r - t]);
                }
            }
            assert(rows_of(shuffled, len as int) =~= train_rows + test_rows);
            lemma_multiset_commutative(train_rows, test_rows);
        }
        let train_name = this.name.clone().concat("_train");
        let test_name = this.name.clone().concat("_test");
        this.name = train_name;
        let test = Dataset {
            name: test_name,
            schema: clone_schema(&this.schema),
            data: new_data,
            train: false,
            has_target: this.has_target,
        };
        (this, test)
    }
}

} // verus!
