//! Tables of labels: rows of integers under named columns, no row twice,
//! with the index of a row found in constant time.

use crate::error::Error;
use crate::row_set::{
    row_set_clone, row_set_get, row_set_insert, row_set_len, row_set_new, row_set_position, set_rows,
};
use indexmap::IndexSet;
use vstd::prelude::*;

verus! {

/// One entry of a row of labels.
pub type LabelValue = i32;

/// What a table of labels holds: its column names and its rows, in order.
pub ghost struct LabelsView {
    pub names: Seq<Seq<char>>,
    pub rows: Seq<Seq<LabelValue>>,
}

/// A column name is not empty and made of ASCII characters only.
pub open spec fn valid_name(name: Seq<char>) -> bool {
    name.len() > 0 && vstd::utf8::is_ascii_chars(name)
}

/// Column names of one table are valid and pairwise distinct.
pub open spec fn valid_names(names: Seq<Seq<char>>) -> bool {
    &&& names.no_duplicates()
    &&& forall|i: int| 0 <= i < names.len() ==> valid_name(#[trigger] names[i])
}

/// The index of the first name, from the one at `from` on, that is not valid
/// or equal to a name before it; the number of names if there is none.
pub open spec fn first_bad_name(names: Seq<Seq<char>>, from: int) -> int
    decreases names.len() - from,
{
    if from < 0 || from >= names.len() {
        names.len() as int
    } else if !valid_name(names[from]) || names.take(from).contains(names[from]) {
        from
    } else {
        first_bad_name(names, from + 1)
    }
}

/// The message that refuses a list of column names, if it is refused.
pub open spec fn names_error(names: Seq<Seq<char>>) -> Option<Seq<char>> {
    let bad = first_bad_name(names, 0);
    if bad >= names.len() {
        None
    } else if !valid_name(names[bad]) {
        Some("labels names must be non-empty ASCII strings"@)
    } else {
        Some("the same name is used for two labels columns"@)
    }
}

/// The message that refuses a row offered to a table under construction, if
/// it is refused.
pub open spec fn row_error(table: LabelsView, row: Seq<LabelValue>) -> Option<Seq<char>> {
    if row.len() != table.arity() {
        Some("wrong number of values in a row of labels"@)
    } else if table.rows.contains(row) {
        Some("can not have the same row of labels twice"@)
    } else {
        None
    }
}

impl LabelsView {
    /// The table's invariant: valid distinct names, rows of one arity, no row twice.
    pub open spec fn wf(self) -> bool {
        &&& valid_names(self.names)
        &&& self.rows.no_duplicates()
        &&& forall|i: int| 0 <= i < self.rows.len() ==> (#[trigger] self.rows[i]).len() == self.names.len()
    }

    /// Number of columns.
    pub open spec fn arity(self) -> nat {
        self.names.len()
    }

    /// Number of rows.
    pub open spec fn count(self) -> nat {
        self.rows.len()
    }
}

/// The single-column, single-row table that stands for an axis without labels.
pub open spec fn single_view() -> LabelsView {
    LabelsView { names: seq!["_"@], rows: seq![seq![0i32]] }
}

/// The character sequences of a list of borrowed names.
pub open spec fn strs_view(names: Seq<&str>) -> Seq<Seq<char>> {
    Seq::new(names.len(), |i: int| names[i]@)
}

/// The character sequences of a list of owned names.
pub open spec fn strings_view(names: Seq<String>) -> Seq<Seq<char>> {
    Seq::new(names.len(), |i: int| names[i]@)
}

/// Whether two strings hold the same characters.
pub fn same_text(a: &str, b: &str) -> (same: bool)
    ensures
        same == (a@ == b@),
{
    String::from_str(a) == String::from_str(b)
}

/// Whether the names can head the columns of one table: each is valid and
/// none is used twice.
pub fn names_are_valid(names: &Vec<&str>) -> (valid: bool)
    ensures
        valid == valid_names(strs_view(names@)),
{
    let ghost views = strs_view(names@);
    let mut i: usize = 0;
    while i < names.len()
        invariant
            i <= names.len(),
            views == strs_view(names@),
            forall|j: int| 0 <= j < i ==> valid_name(#[trigger] views[j]),
            forall|j: int, k: int| 0 <= j < k < i ==> views[j] != views[k],
        decreases names.len() - i,
    {
        let name = names[i];
        assert(views[i as int] == name@);
        if name.is_empty() || !name.is_ascii() {
            assert(!valid_name(views[i as int]));
            return false;
        }
        let mut j: usize = 0;
        while j < i
            invariant
                j <= i,
                i < names.len(),
                views == strs_view(names@),
                name@ == views[i as int],
                forall|k: int| 0 <= k < j ==> views[k] != views[i as int],
            decreases i - j,
        {
            assert(views[j as int] == names[j as int]@);
            if same_text(names[j], name) {
                return false;
            }
            j += 1;
        }
        i += 1;
    }
    true
}

/// Whether two rows hold the same values.
pub fn same_row(a: &[LabelValue], b: &[LabelValue]) -> (same: bool)
    ensures
        same == (a@ == b@),
{
    if a.len() != b.len() {
        return false;
    }
    let mut i: usize = 0;
    while i < a.len()
        invariant
            i <= a.len(),
            a.len() == b.len(),
            forall|j: int| 0 <= j < i ==> a[j] == b[j],
        decreases a.len() - i,
    {
        if a[i] != b[i] {
            return false;
        }
        i += 1;
    }
    assert(a@ =~= b@);
    true
}

/// Index of the first of `names` equal to `name`, if there is one.
pub fn find_name(names: &Vec<String>, name: &str) -> (r: Option<usize>)
    ensures
        match r {
            Some(i) => {
                &&& i < names.len()
                &&& strings_view(names@)[i as int] == name@
                &&& strings_view(names@).contains(name@)
                &&& forall|j: int| 0 <= j < i ==> strings_view(names@)[j] != name@
            },
            None => !strings_view(names@).contains(name@),
        },
{
    let wanted = String::from_str(name);
    let mut i: usize = 0;
    while i < names.len()
        invariant
            i <= names.len(),
            wanted@ == name@,
            forall|j: int| 0 <= j < i ==> names[j]@ != name@,
        decreases names.len() - i,
    {
        if names[i] == wanted {
            assert(strings_view(names@)[i as int] == name@);
            return Some(i);
        }
        i += 1;
    }
    None
}

/// An ordered table of rows of labels under named columns.
#[derive(Debug)]
pub struct Labels {
    names: Vec<String>,
    rows: IndexSet<Vec<LabelValue>>,
}

/// Collects the rows of a table one by one, refusing a row that it holds already.
#[derive(Debug)]
pub struct LabelsBuilder {
    names: Vec<String>,
    rows: IndexSet<Vec<LabelValue>>,
}

impl View for LabelsBuilder {
    type V = LabelsView;

    closed spec fn view(&self) -> LabelsView {
        LabelsView { names: strings_view(self.names@), rows: set_rows(self.rows) }
    }
}

impl LabelsBuilder {
    /// The invariant of the table under construction.
    pub open spec fn wf(&self) -> bool {
        self@.wf()
    }

    /// Starts a table with the given column names and no rows. Names that are
    /// empty, not ASCII, or used twice are refused.
    pub fn new(names: Vec<&str>) -> (r: Result<LabelsBuilder, Error>)
        ensures
            match r {
                Ok(builder) => {
                    &&& valid_names(strs_view(names@))
                    &&& builder.wf()
                    &&& builder@.names == strs_view(names@)
                    &&& builder@.rows.len() == 0
                },
                Err(e) => {
                    &&& !valid_names(strs_view(names@))
                    &&& e matches Error::InvalidParameter(m) && names_error(strs_view(names@)) == Some(m@)
                },
            },
    {
        let ghost views = strs_view(names@);
        let mut owned: Vec<String> = Vec::new();
        let mut i: usize = 0;
        while i < names.len()
            invariant
                i <= names.len(),
                views == strs_view(names@),
                owned.len() == i,
                forall|j: int| 0 <= j < i ==> owned[j]@ == names[j]@,
                forall|j: int| 0 <= j < i ==> valid_name(#[trigger] names[j]@),
                forall|j: int, k: int| 0 <= j < k < i ==> names[j]@ != names[k]@,
                first_bad_name(views, 0) == first_bad_name(views, i as int),
            decreases names.len() - i,
        {
            let name = names[i];
            assert(views[i as int] == name@);
            if name.is_empty() || !name.is_ascii() {
                assert(!valid_name(views[i as int]));
                return Err(Error::InvalidParameter(String::from_str("labels names must be non-empty ASCII strings")));
            }
            match find_name(&owned, name) {
                Some(j) => {
                    assert(views[j as int] == views[i as int]);
                    assert(views.take(i as int)[j as int] == views[i as int]);
                    return Err(Error::InvalidParameter(String::from_str("the same name is used for two labels columns")));
                },
                None => {
                    assert forall|j: int| 0 <= j < i implies names[j]@ != names[i as int]@ by {
                        assert(strings_view(owned@)[j] == owned[j]@);
                        assert(strings_view(owned@).contains(owned[j]@));
                    }
                    assert(!views.take(i as int).contains(views[i as int])) by {
                        if views.take(i as int).contains(views[i as int]) {
                            let j = choose|j: int| 0 <= j < i && views.take(i as int)[j] == views[i as int];
                            assert(names[j]@ == names[i as int]@);
                        }
                    }
                },
            }
            owned.push(String::from_str(name));
            i += 1;
        }
        let builder = LabelsBuilder { names: owned, rows: row_set_new() };
        assert(builder@.names =~= strs_view(names@));
        Ok(builder)
    }

    /// Number of columns of the table under construction.
    pub fn size(&self) -> (n: usize)
        ensures
            n == self@.arity(),
    {
        self.names.len()
    }

    /// Number of rows collected so far.
    pub fn count(&self) -> (n: usize)
        ensures
            n == self@.count(),
    {
        row_set_len(&self.rows)
    }

    /// Appends a row. A row of another arity, or one equal to a row collected
    /// before, is refused and leaves the builder as it was.
    pub fn add(&mut self, row: Vec<LabelValue>) -> (r: Result<(), Error>)
        requires
            old(self).wf(),
        ensures
            final(self).wf(),
            final(self)@.names == old(self)@.names,
            match r {
                Ok(()) => {
                    &&& row.len() == old(self)@.arity()
                    &&& !old(self)@.rows.contains(row@)
                    &&& final(self)@.rows == old(self)@.rows.push(row@)
                },
                Err(e) => {
                    &&& e matches Error::InvalidParameter(m) && row_error(old(self)@, row@) == Some(m@)
                    &&& row.len() != old(self)@.arity() || old(self)@.rows.contains(row@)
                    &&& final(self)@ == old(self)@
                },
            },
    {
        if row.len() != self.names.len() {
            return Err(Error::InvalidParameter(String::from_str("wrong number of values in a row of labels")));
        }
        let ghost before = self@.rows;
        let ghost added_row = row@;
        let added = row_set_insert(&mut self.rows, row);
        if added {
            proof {
                lemma_push_new_keeps_distinct(before, added_row);
            }
            Ok(())
        } else {
            Err(Error::InvalidParameter(String::from_str("can not have the same row of labels twice")))
        }
    }

    /// Appends a row unless an equal row was collected before, and says
    /// whether the row was appended.
    pub fn insert(&mut self, row: Vec<LabelValue>) -> (added: bool)
        requires
            old(self).wf(),
            row.len() == old(self)@.arity(),
        ensures
            final(self).wf(),
            final(self)@.names == old(self)@.names,
            added == !old(self)@.rows.contains(row@),
            final(self)@.rows == if added {
                old(self)@.rows.push(row@)
            } else {
                old(self)@.rows
            },
    {
        let ghost before = self@.rows;
        let ghost added_row = row@;
        let added = row_set_insert(&mut self.rows, row);
        proof {
            if added {
                lemma_push_new_keeps_distinct(before, added_row);
            }
        }
        added
    }

    /// The finished table: the names given and the rows collected, in order.
    pub fn finish(self) -> (labels: Labels)
        requires
            self.wf(),
        ensures
            labels.wf(),
            labels@ == self@,
    {
        Labels { names: self.names, rows: self.rows }
    }
}

/// A sequence without repeats stays so when a value that it lacks is appended.
pub proof fn lemma_push_new_keeps_distinct<T>(rows: Seq<T>, row: T)
    requires
        rows.no_duplicates(),
        !rows.contains(row),
    ensures
        rows.push(row).no_duplicates(),
{
    let pushed = rows.push(row);
    assert forall|i: int, j: int| 0 <= i < pushed.len() && 0 <= j < pushed.len() && i != j implies pushed[i]
        != pushed[j] by {
        if i < rows.len() && j < rows.len() {
        } else if i < rows.len() {
            assert(rows.contains(rows[i]));
        } else {
            assert(rows.contains(rows[j]));
        }
    }
}

impl View for Labels {
    type V = LabelsView;

    closed spec fn view(&self) -> LabelsView {
        LabelsView { names: strings_view(self.names@), rows: set_rows(self.rows) }
    }
}

impl Clone for Labels {
    /// A table with the same column names and the same rows.
    fn clone(&self) -> (copy: Labels)
        ensures
            copy@ == self@,
    {
        let mut names: Vec<String> = Vec::new();
        let mut i: usize = 0;
        while i < self.names.len()
            invariant
                i <= self.names.len(),
                names.len() == i,
                forall|j: int| 0 <= j < i ==> names[j]@ == self.names[j]@,
            decreases self.names.len() - i,
        {
            names.push(self.names[i].clone());
            i += 1;
        }
        let copy = Labels { names, rows: row_set_clone(&self.rows) };
        assert(copy@.names =~= self@.names);
        copy
    }
}

impl PartialEq for Labels {
    /// Two tables are equal when they have the same column names and the same
    /// rows, both in the same order.
    fn eq(&self, other: &Labels) -> (same: bool) {
        self.equals(other)
    }
}

impl vstd::std_specs::cmp::PartialEqSpecImpl for Labels {
    open spec fn obeys_eq_spec() -> bool {
        true
    }

    open spec fn eq_spec(&self, other: &Labels) -> bool {
        self@ == other@
    }
}

impl Labels {
    /// The invariant of a table.
    pub open spec fn wf(&self) -> bool {
        self@.wf()
    }

    /// The single-column table with the one row `[0]`.
    pub fn single() -> (labels: Labels)
        ensures
            labels.wf(),
            labels@ == single_view(),
    {
        let mut names: Vec<String> = Vec::new();
        names.push(String::from_str("_"));
        let mut rows = row_set_new();
        let mut row: Vec<LabelValue> = Vec::new();
        row.push(0);
        assert(row@ =~= seq![0i32]);
        row_set_insert(&mut rows, row);
        let labels = Labels { names, rows };
        proof {
            reveal_strlit("_");
            assert(labels@.names =~= seq!["_"@]);
            assert(labels@.rows =~= seq![seq![0i32]]);
            assert(valid_name("_"@)) by {
                assert("_"@.len() == 1);
                assert("_"@[0] == '_');
                assert(vstd::utf8::is_ascii_chars("_"@));
            }
        }
        labels
    }

    /// Number of columns.
    pub fn arity(&self) -> (n: usize)
        ensures
            n == self@.arity(),
    {
        self.names.len()
    }

    /// Number of columns, as the size of a row.
    pub fn size(&self) -> (n: usize)
        ensures
            n == self@.arity(),
    {
        self.names.len()
    }

    /// Number of rows.
    pub fn count(&self) -> (n: usize)
        ensures
            n == self@.count(),
    {
        row_set_len(&self.rows)
    }

    /// The column names, in order.
    pub fn names(&self) -> (names: Vec<&str>)
        ensures
            strs_view(names@) == self@.names,
    {
        let mut names: Vec<&str> = Vec::new();
        let mut i: usize = 0;
        while i < self.names.len()
            invariant
                i <= self.names.len(),
                names.len() == i,
                forall|j: int| 0 <= j < i ==> names[j]@ == self.names[j]@,
            decreases self.names.len() - i,
        {
            names.push(self.names[i].as_str());
            i += 1;
        }
        assert(strs_view(names@) =~= self@.names);
        names
    }

    /// Index of the column called `name`, if there is one.
    pub fn column(&self, name: &str) -> (r: Option<usize>)
        ensures
            match r {
                Some(i) => i < self@.arity() && self@.names[i as int] == name@,
                None => !self@.names.contains(name@),
            },
    {
        let r = find_name(&self.names, name);
        proof {
            if let Some(i) = r {
                assert(self@.names[i as int] == self.names[i as int]@);
            }
        }
        r
    }

    /// The row at `index`.
    pub fn row(&self, index: usize) -> (row: &[LabelValue])
        requires
            index < self@.count(),
        ensures
            row@ == self@.rows[index as int],
    {
        match row_set_get(&self.rows, index) {
            Some(row) => row.as_slice(),
            None => vstd::pervasive::unreached(),
        }
    }

    /// Whether the two tables have the same column names, in the same order.
    pub fn same_names(&self, other: &Labels) -> (same: bool)
        ensures
            same == (self@.names == other@.names),
    {
        if self.names.len() != other.names.len() {
            assert(self@.names.len() != other@.names.len());
            return false;
        }
        let mut i: usize = 0;
        while i < self.names.len()
            invariant
                i <= self.names.len(),
                self.names.len() == other.names.len(),
                forall|j: int| 0 <= j < i ==> self@.names[j] == other@.names[j],
            decreases self.names.len() - i,
        {
            if self.names[i] != other.names[i] {
                assert(self@.names[i as int] != other@.names[i as int]);
                return false;
            }
            i += 1;
        }
        assert(self@.names =~= other@.names);
        true
    }

    /// Whether the two tables have the same column names and the same rows,
    /// both in the same order.
    pub fn equals(&self, other: &Labels) -> (same: bool)
        ensures
            same == (self@ == other@),
    {
        if !self.same_names(other) || self.count() != other.count() {
            return false;
        }
        let mut i: usize = 0;
        while i < self.count()
            invariant
                i <= self@.count(),
                self@.names == other@.names,
                self@.count() == other@.count(),
                forall|j: int| 0 <= j < i ==> self@.rows[j] == other@.rows[j],
            decreases self@.count() - i,
        {
            if !same_row(self.row(i), other.row(i)) {
                return false;
            }
            i += 1;
        }
        assert(self@.rows =~= other@.rows);
        true
    }

    /// The rows, in order.
    pub fn iter(&self) -> (rows: Vec<&[LabelValue]>)
        ensures
            rows.len() == self@.count(),
            forall|i: int| 0 <= i < rows.len() ==> (#[trigger] rows[i])@ == self@.rows[i],
    {
        let mut rows: Vec<&[LabelValue]> = Vec::new();
        let mut i: usize = 0;
        while i < self.count()
            invariant
                i <= self@.count(),
                rows.len() == i,
                forall|j: int| 0 <= j < i ==> (#[trigger] rows[j])@ == self@.rows[j],
            decreases self@.count() - i,
        {
            rows.push(self.row(i));
            i += 1;
        }
        rows
    }

    /// Index of the row equal to `row`, if the table holds one.
    pub fn position(&self, row: &[LabelValue]) -> (r: Option<usize>)
        ensures
            match r {
                Some(i) => i < self@.count() && self@.rows[i as int] == row@,
                None => !self@.rows.contains(row@),
            },
    {
        row_set_position(&self.rows, row)
    }
}

} // verus!
