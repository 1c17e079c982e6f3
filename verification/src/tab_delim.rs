//! Reading of tab-separated fact rows: the split of a line into columns and
//! the interning of each column as an atom of its kind.

use crate::atom::{Atom, Loan, Point, Region};
use crate::facts::AllFacts;
use vstd::prelude::*;

verus! {

/// The byte that separates the columns of a row.
pub const TAB: u8 = 9;

/// Whether `a` and `b` hold the same bytes.
pub fn same_bytes(a: &Vec<u8>, b: &Vec<u8>) -> (same: bool)
    ensures
        same == (a@ == b@),
{
    if a.len() != b.len() {
        return false;
    }
    let mut i: usize = 0;
    while i < a.len()
        invariant
            0 <= i <= a.len(),
            a.len() == b.len(),
            forall|j: int| 0 <= j < i ==> a@[j] == b@[j],
        decreases a.len() - i,
    {
        if a[i] != b[i] {
            return false;
        }
        i += 1;
    }
    proof {
        assert(a@ =~= b@);
    }
    true
}

/// The columns of `line`: a tab opens a new column, and any other byte
/// joins the last column. A line without a tab is one column, an empty line
/// one empty column.
pub open spec fn columns_of(line: Seq<u8>) -> Seq<Seq<u8>>
    decreases line.len(),
{
    if line.len() == 0 {
        seq![Seq::<u8>::empty()]
    } else {
        let front = columns_of(line.drop_last());
        if line.last() == TAB {
            front.push(Seq::<u8>::empty())
        } else {
            front.drop_last().push(front.last().push(line.last()))
        }
    }
}

/// A line has one column more than it has tabs, and no column holds a tab.
pub proof fn lemma_columns_shape(line: Seq<u8>)
    ensures
        columns_of(line).len() == 1 + line.filter(|b: u8| b == TAB).len(),
        forall|c: int, k: int|
            0 <= c < columns_of(line).len() && 0 <= k < columns_of(line)[c].len() ==> (
            #[trigger] columns_of(line)[c][k]) != TAB,
    decreases line.len(),
{
    if line.len() == 0 {
        reveal(Seq::filter);
    } else {
        let front = line.drop_last();
        lemma_columns_shape(front);
        assert(line =~= front.push(line.last()));
        front.lemma_filter_push(line.last(), |b: u8| b == TAB);
    }
}

/// Splits `line` at its tabs.
pub fn split_columns(line: &Vec<u8>) -> (columns: Vec<Vec<u8>>)
    ensures
        columns.len() == columns_of(line@).len(),
        forall|c: int| 0 <= c < columns.len() ==> (#[trigger] columns@[c])@ == columns_of(line@)[c],
{
    let mut columns: Vec<Vec<u8>> = Vec::new();
    let mut column: Vec<u8> = Vec::new();
    let mut i: usize = 0;
    while i < line.len()
        invariant
            0 <= i <= line.len(),
            columns.len() + 1 == columns_of(line@.take(i as int)).len(),
            forall|c: int|
                0 <= c < columns.len() ==> (#[trigger] columns@[c])@ == columns_of(
                    line@.take(i as int),
                )[c],
            column@ == columns_of(line@.take(i as int)).last(),
        decreases line.len() - i,
    {
        let byte: u8 = line[i];
        proof {
            assert(line@.take(i + 1).drop_last() =~= line@.take(i as int));
        }
        if byte == TAB {
            columns.push(column);
            column = Vec::new();
        } else {
            column.push(byte);
        }
        i += 1;
    }
    proof {
        assert(line@.take(i as int) =~= line@);
    }
    columns.push(column);
    columns
}

/// The columns joined again, with a tab between each two.
pub open spec fn joined(columns: Seq<Seq<u8>>) -> Seq<u8>
    decreases columns.len(),
{
    if columns.len() == 0 {
        Seq::<u8>::empty()
    } else if columns.len() == 1 {
        columns[0]
    } else {
        joined(columns.drop_last()).push(TAB) + columns.last()
    }
}

/// The columns of a line, joined by tabs, are the line.
pub proof fn lemma_columns_join(line: Seq<u8>)
    ensures
        joined(columns_of(line)) == line,
    decreases line.len(),
{
    if line.len() == 0 {
        assert(joined(columns_of(line)) =~= line);
    } else {
        let front = columns_of(line.drop_last());
        lemma_columns_join(line.drop_last());
        lemma_columns_shape(line.drop_last());
        let all = columns_of(line);
        if line.last() == TAB {
            assert(all.drop_last() =~= front);
            assert(joined(all) =~= line.drop_last().push(TAB));
        } else if front.len() == 1 {
            assert(joined(all) =~= line.drop_last().push(line.last()));
        } else {
            assert(all.drop_last() =~= front.drop_last());
            assert(joined(all) =~= joined(front).push(line.last()));
        }
        assert(line =~= line.drop_last().push(line.last()));
    }
}

/// The kind of atom that a column holds.
#[derive(Clone, Copy, PartialEq, Eq, Debug, Structural)]
pub enum Kind {
    Region,
    Loan,
    Point,
}

/// Why a row could not be read.
#[derive(Clone, Copy, PartialEq, Eq, Debug, Structural)]
pub enum RowError {
    /// The line has fewer columns than the relation.
    MissingColumn,
    /// The line has more columns than the relation.
    ExtraData,
}

/// The seven relations, in the order in which they are read.
#[derive(Clone, Copy, PartialEq, Eq, Debug, Structural)]
pub enum Relation {
    BorrowRegion,
    UniversalRegion,
    CfgEdge,
    Killed,
    Outlives,
    RegionLiveAt,
    Invalidates,
}

/// The first line that could not be read: its relation, its number counted
/// from one, and what is wrong with it.
#[derive(Clone, Copy, PartialEq, Eq, Debug, Structural)]
pub struct LoadError {
    pub relation: Relation,
    pub line: usize,
    pub error: RowError,
}

/// The names once `name` has been interned: it is added behind the others
/// unless it is among them.
pub open spec fn interned(names: Seq<Seq<u8>>, name: Seq<u8>) -> Seq<Seq<u8>> {
    if names.contains(name) {
        names
    } else {
        names.push(name)
    }
}

/// A table that gives each name that it has seen an index of its own: the
/// first name seen has index 0, the next new name index 1, and so on.
pub struct Interner {
    names: Vec<Vec<u8>>,
}

impl View for Interner {
    type V = Seq<Seq<u8>>;

    /// The names seen, each at its index.
    closed spec fn view(&self) -> Seq<Seq<u8>> {
        Seq::new(self.names@.len(), |i: int| self.names@[i]@)
    }
}

impl Interner {
    /// No name has two indices.
    pub open spec fn wf(&self) -> bool {
        self@.no_duplicates()
    }

    /// A table that has seen no name.
    pub fn new() -> (table: Self)
        ensures
            table@.len() == 0,
            table.wf(),
    {
        Interner { names: Vec::new() }
    }

    /// The number of names seen.
    pub fn len(&self) -> (n: usize)
        ensures
            n == self@.len(),
    {
        self.names.len()
    }

    /// The index of `name`, which is added to the table if it is new.
    pub fn intern(&mut self, name: &Vec<u8>) -> (index: usize)
        requires
            old(self).wf(),
        ensures
            final(self).wf(),
            final(self)@ == interned(old(self)@, name@),
            0 <= index < final(self)@.len(),
            final(self)@[index as int] == name@,
    {
        let mut i: usize = 0;
        while i < self.names.len()
            invariant
                0 <= i <= self.names.len(),
                *self == *old(self),
                old(self).wf(),
                forall|j: int| 0 <= j < i ==> self@[j] != name@,
            decreases self.names.len() - i,
        {
            if same_bytes(&self.names[i], name) {
                proof {
                    assert(self@[i as int] == name@);
                }
                return i;
            }
            i += 1;
        }
        let mut copy: Vec<u8> = Vec::new();
        let mut k: usize = 0;
        while k < name.len()
            invariant
                0 <= k <= name.len(),
                copy@ == name@.take(k as int),
            decreases name.len() - k,
        {
            copy.push(name[k]);
            proof {
                assert(name@.take(k + 1) =~= name@.take(k as int).push(name@[k as int]));
            }
            k += 1;
        }
        proof {
            assert(name@.take(k as int) =~= name@);
        }
        self.names.push(copy);
        proof {
            assert(self@ =~= old(self)@.push(name@));
        }
        i
    }

    /// The name with the index `index`, if one has it.
    pub fn name(&self, index: usize) -> (name: Option<&Vec<u8>>)
        ensures
            match name {
                Some(n) => index < self@.len() && n@ == self@[index as int],
                None => index >= self@.len(),
            },
    {
        if index < self.names.len() {
            Some(&self.names[index])
        } else {
            None
        }
    }
}

/// The names that the three tables have seen.
pub struct TablesView {
    pub regions: Seq<Seq<u8>>,
    pub loans: Seq<Seq<u8>>,
    pub points: Seq<Seq<u8>>,
}

impl TablesView {
    /// The names of the atoms of `kind`.
    pub open spec fn table(self, kind: Kind) -> Seq<Seq<u8>> {
        match kind {
            Kind::Region => self.regions,
            Kind::Loan => self.loans,
            Kind::Point => self.points,
        }
    }

    /// The tables once `name` has been interned as an atom of `kind`.
    pub open spec fn interned(self, kind: Kind, name: Seq<u8>) -> TablesView {
        match kind {
            Kind::Region => TablesView { regions: interned(self.regions, name), ..self },
            Kind::Loan => TablesView { loans: interned(self.loans, name), ..self },
            Kind::Point => TablesView { points: interned(self.points, name), ..self },
        }
    }

    /// The tables once the first `n` columns have been interned, from left to
    /// right, each as an atom of the kind at its place.
    pub open spec fn interned_columns(
        self,
        kinds: Seq<Kind>,
        columns: Seq<Seq<u8>>,
        n: int,
    ) -> TablesView
        decreases n,
    {
        if n <= 0 {
            self
        } else {
            self.interned_columns(kinds, columns, n - 1).interned(kinds[n - 1], columns[n - 1])
        }
    }

    /// The tables once `line` has been read as a row of `kinds`. A line with
    /// another number of columns leaves them as they are.
    pub open spec fn interned_line(self, kinds: Seq<Kind>, line: Seq<u8>) -> TablesView {
        if columns_of(line).len() == kinds.len() {
            self.interned_columns(kinds, columns_of(line), kinds.len() as int)
        } else {
            self
        }
    }

    /// The tables once the first `n` of `lines` have been read as rows of
    /// `kinds`.
    pub open spec fn interned_lines(self, kinds: Seq<Kind>, lines: Seq<Seq<u8>>, n: int) -> TablesView
        decreases n,
    {
        if n <= 0 {
            self
        } else {
            self.interned_lines(kinds, lines, n - 1).interned_line(kinds, lines[n - 1])
        }
    }

    /// Every name of `self` has the same index in `later`.
    pub open spec fn is_kept_by(self, later: TablesView) -> bool {
        &&& self.regions.is_prefix_of(later.regions)
        &&& self.loans.is_prefix_of(later.loans)
        &&& self.points.is_prefix_of(later.points)
    }
}

/// The interning tables: one for regions, one for loans, one for points. A
/// name is the same atom wherever it is read as an atom of the same kind.
pub struct InternerTables {
    pub regions: Interner,
    pub loans: Interner,
    pub points: Interner,
}

impl View for InternerTables {
    type V = TablesView;

    open spec fn view(&self) -> TablesView {
        TablesView { regions: self.regions@, loans: self.loans@, points: self.points@ }
    }
}

/// `row` holds, for each column, the index of the column's name in the
/// table of the column's kind.
pub open spec fn is_row_of(
    tables: TablesView,
    kinds: Seq<Kind>,
    columns: Seq<Seq<u8>>,
    row: Seq<usize>,
) -> bool {
    &&& row.len() == kinds.len()
    &&& columns.len() == kinds.len()
    &&& forall|c: int|
        0 <= c < row.len() ==> (#[trigger] row[c]) < tables.table(kinds[c]).len() && tables.table(
            kinds[c],
        )[row[c] as int] == columns[c]
}

impl InternerTables {
    /// No name has two indices in a table.
    pub open spec fn wf(&self) -> bool {
        self.regions.wf() && self.loans.wf() && self.points.wf()
    }

    /// Three tables that have seen no name.
    pub fn new() -> (tables: Self)
        ensures
            tables.wf(),
            tables@.regions.len() == 0,
            tables@.loans.len() == 0,
            tables@.points.len() == 0,
    {
        InternerTables { regions: Interner::new(), loans: Interner::new(), points: Interner::new() }
    }

    /// The index of `name` among the atoms of `kind`.
    pub fn intern(&mut self, kind: Kind, name: &Vec<u8>) -> (index: usize)
        requires
            old(self).wf(),
        ensures
            final(self).wf(),
            final(self)@ == old(self)@.interned(kind, name@),
            old(self)@.is_kept_by(final(self)@),
            0 <= index < final(self)@.table(kind).len(),
            final(self)@.table(kind)[index as int] == name@,
    {
        match kind {
            Kind::Region => self.regions.intern(name),
            Kind::Loan => self.loans.intern(name),
            Kind::Point => self.points.intern(name),
        }
    }

    /// Reads `line` as a row of `kinds`: splits it at its tabs and interns
    /// each column, from left to right, as an atom of the kind at its place.
    /// A line with too few or too many columns is refused and leaves the
    /// tables as they were.
    pub fn parse_row(&mut self, kinds: &Vec<Kind>, line: &Vec<u8>) -> (parsed: Result<
        Vec<usize>,
        RowError,
    >)
        requires
            old(self).wf(),
        ensures
            final(self).wf(),
            final(self)@ == old(self)@.interned_line(kinds@, line@),
            old(self)@.is_kept_by(final(self)@),
            match parsed {
                Ok(row) => is_row_of(final(self)@, kinds@, columns_of(line@), row@),
                Err(RowError::MissingColumn) => columns_of(line@).len() < kinds@.len(),
                Err(RowError::ExtraData) => columns_of(line@).len() > kinds@.len(),
            },
    {
        let columns = split_columns(line);
        if columns.len() < kinds.len() {
            return Err(RowError::MissingColumn);
        }
        if columns.len() > kinds.len() {
            return Err(RowError::ExtraData);
        }
        let ghost all = columns_of(line@);
        let mut row: Vec<usize> = Vec::new();
        let mut c: usize = 0;
        while c < kinds.len()
            invariant
                0 <= c <= kinds.len(),
                columns.len() == kinds.len(),
                all.len() == kinds.len(),
                forall|k: int| 0 <= k < columns.len() ==> (#[trigger] columns@[k])@ == all[k],
                self.wf(),
                self@ == old(self)@.interned_columns(kinds@, all, c as int),
                old(self)@.is_kept_by(self@),
                row.len() == c,
                forall|k: int|
                    0 <= k < c ==> (#[trigger] row@[k]) < self@.table(kinds@[k]).len()
                        && self@.table(kinds@[k])[row@[k] as int] == all[k],
            decreases kinds.len() - c,
        {
            let ghost before = self@;
            let index: usize = self.intern(kinds[c], &columns[c]);
            row.push(index);
            proof {
                assert forall|k: int| 0 <= k < c + 1 implies (#[trigger] row@[k]) < self@.table(
                    kinds@[k],
                ).len() && self@.table(kinds@[k])[row@[k] as int] == all[k] by {
                    if k < c {
                        assert(before.table(kinds@[k])[row@[k] as int] == all[k]);
                    }
                }
            }
            c += 1;
        }
        Ok(row)
    }
}

/// What is wrong with `line` as a row of `kinds`, if anything.
pub open spec fn row_error(kinds: Seq<Kind>, line: Seq<u8>) -> Option<RowError> {
    if columns_of(line).len() < kinds.len() {
        Some(RowError::MissingColumn)
    } else if columns_of(line).len() > kinds.len() {
        Some(RowError::ExtraData)
    } else {
        None
    }
}

/// The first `n` of `lines` are rows of `kinds`.
pub open spec fn are_rows(kinds: Seq<Kind>, lines: Seq<Seq<u8>>, n: int) -> bool {
    forall|i: int| 0 <= i < n ==> row_error(kinds, #[trigger] lines[i]) is None
}

/// The bytes of each line.
pub open spec fn lines_view(lines: Seq<Vec<u8>>) -> Seq<Seq<u8>> {
    Seq::new(lines.len(), |i: int| lines[i]@)
}

/// Each of `rows` is the row of the line at its place.
pub open spec fn are_rows_of(
    tables: TablesView,
    kinds: Seq<Kind>,
    lines: Seq<Seq<u8>>,
    rows: Seq<Vec<usize>>,
) -> bool {
    &&& rows.len() == lines.len()
    &&& forall|i: int|
        0 <= i < rows.len() ==> is_row_of(tables, kinds, columns_of(lines[i]), (#[trigger] rows[i])@)
}

/// A row stays the row of its columns when the tables grow.
pub proof fn lemma_row_is_kept(
    tables: TablesView,
    later: TablesView,
    kinds: Seq<Kind>,
    columns: Seq<Seq<u8>>,
    row: Seq<usize>,
)
    requires
        is_row_of(tables, kinds, columns, row),
        tables.is_kept_by(later),
    ensures
        is_row_of(later, kinds, columns, row),
{
    assert forall|c: int| 0 <= c < row.len() implies (#[trigger] row[c]) < later.table(
        kinds[c],
    ).len() && later.table(kinds[c])[row[c] as int] == columns[c] by {
        assert(tables.table(kinds[c])[row[c] as int] == columns[c]);
    }
}

/// The kinds of the columns of each relation.
pub open spec fn kinds_of(relation: Relation) -> Seq<Kind> {
    match relation {
        Relation::BorrowRegion => seq![Kind::Region, Kind::Loan, Kind::Point],
        Relation::UniversalRegion => seq![Kind::Region],
        Relation::CfgEdge => seq![Kind::Point, Kind::Point],
        Relation::Killed => seq![Kind::Loan, Kind::Point],
        Relation::Outlives => seq![Kind::Region, Kind::Region, Kind::Point],
        Relation::RegionLiveAt => seq![Kind::Region, Kind::Point],
        Relation::Invalidates => seq![Kind::Point, Kind::Loan],
    }
}

/// The place of each relation in the order in which they are read.
pub open spec fn place_of(relation: Relation) -> int {
    match relation {
        Relation::BorrowRegion => 0,
        Relation::UniversalRegion => 1,
        Relation::CfgEdge => 2,
        Relation::Killed => 3,
        Relation::Outlives => 4,
        Relation::RegionLiveAt => 5,
        Relation::Invalidates => 6,
    }
}

/// The kinds of the columns of `relation`.
pub fn relation_kinds(relation: Relation) -> (kinds: Vec<Kind>)
    ensures
        kinds@ == kinds_of(relation),
{
    let mut kinds: Vec<Kind> = Vec::new();
    match relation {
        Relation::BorrowRegion => {
            kinds.push(Kind::Region);
            kinds.push(Kind::Loan);
            kinds.push(Kind::Point);
        },
        Relation::UniversalRegion => {
            kinds.push(Kind::Region);
        },
        Relation::CfgEdge => {
            kinds.push(Kind::Point);
            kinds.push(Kind::Point);
        },
        Relation::Killed => {
            kinds.push(Kind::Loan);
            kinds.push(Kind::Point);
        },
        Relation::Outlives => {
            kinds.push(Kind::Region);
            kinds.push(Kind::Region);
            kinds.push(Kind::Point);
        },
        Relation::RegionLiveAt => {
            kinds.push(Kind::Region);
            kinds.push(Kind::Point);
        },
        Relation::Invalidates => {
            kinds.push(Kind::Point);
            kinds.push(Kind::Loan);
        },
    }
    proof {
        assert(kinds@ =~= kinds_of(relation));
    }
    kinds
}

/// The lines of the seven fact files, one file for each relation.
pub struct FactLines {
    pub borrow_region: Vec<Vec<u8>>,
    pub universal_region: Vec<Vec<u8>>,
    pub cfg_edge: Vec<Vec<u8>>,
    pub killed: Vec<Vec<u8>>,
    pub outlives: Vec<Vec<u8>>,
    pub region_live_at: Vec<Vec<u8>>,
    pub invalidates: Vec<Vec<u8>>,
}

impl FactLines {
    /// The lines of the file of `relation`.
    pub open spec fn file(&self, relation: Relation) -> Seq<Seq<u8>> {
        match relation {
            Relation::BorrowRegion => lines_view(self.borrow_region@),
            Relation::UniversalRegion => lines_view(self.universal_region@),
            Relation::CfgEdge => lines_view(self.cfg_edge@),
            Relation::Killed => lines_view(self.killed@),
            Relation::Outlives => lines_view(self.outlives@),
            Relation::RegionLiveAt => lines_view(self.region_live_at@),
            Relation::Invalidates => lines_view(self.invalidates@),
        }
    }

    /// Every line of the file of `relation` is a row of that relation.
    pub open spec fn is_readable(&self, relation: Relation) -> bool {
        are_rows(kinds_of(relation), self.file(relation), self.file(relation).len() as int)
    }
}

impl TablesView {
    /// The tables once the whole file of `relation` has been read.
    pub open spec fn interned_file(self, lines: &FactLines, relation: Relation) -> TablesView {
        self.interned_lines(
            kinds_of(relation),
            lines.file(relation),
            lines.file(relation).len() as int,
        )
    }

    /// The tables once the files of the first `n` relations have been read,
    /// in the order in which the relations are read.
    pub open spec fn interned_files(self, lines: &FactLines, n: int) -> TablesView {
        let t1 = if n > 0 {
            self.interned_file(lines, Relation::BorrowRegion)
        } else {
            self
        };
        let t2 = if n > 1 {
            t1.interned_file(lines, Relation::UniversalRegion)
        } else {
            t1
        };
        let t3 = if n > 2 {
            t2.interned_file(lines, Relation::CfgEdge)
        } else {
            t2
        };
        let t4 = if n > 3 {
            t3.interned_file(lines, Relation::Killed)
        } else {
            t3
        };
        let t5 = if n > 4 {
            t4.interned_file(lines, Relation::Outlives)
        } else {
            t4
        };
        let t6 = if n > 5 {
            t5.interned_file(lines, Relation::RegionLiveAt)
        } else {
            t5
        };
        if n > 6 {
            t6.interned_file(lines, Relation::Invalidates)
        } else {
            t6
        }
    }

    /// The tables once the files before that of `error` and the lines
    /// before the line of `error` have been read.
    pub open spec fn interned_before(self, lines: &FactLines, error: LoadError) -> TablesView {
        self.interned_files(lines, place_of(error.relation)).interned_lines(
            kinds_of(error.relation),
            lines.file(error.relation),
            error.line - 1,
        )
    }
}

/// `error` names the first line of the first file, in the order in which
/// the relations are read, that is no row of its relation.
pub open spec fn is_first_error(lines: &FactLines, error: LoadError) -> bool {
    &&& forall|earlier: Relation|
        place_of(earlier) < place_of(error.relation) ==> lines.is_readable(earlier)
    &&& 1 <= error.line <= lines.file(error.relation).len()
    &&& are_rows(kinds_of(error.relation), lines.file(error.relation), error.line - 1)
    &&& row_error(kinds_of(error.relation), lines.file(error.relation)[error.line - 1]) == Some(
        error.error,
    )
}

/// An atom that is made from the index that a table gave to its name.
pub trait Interned: Atom {
    /// The atom with the index `index`.
    fn at(index: usize) -> (atom: Self)
        ensures
            atom.index_spec() == index,
    ;
}

impl Interned for usize {
    fn at(index: usize) -> (atom: usize) {
        index
    }
}

impl Interned for Region {
    fn at(index: usize) -> (atom: Region) {
        Region::from(index)
    }
}

impl Interned for Loan {
    fn at(index: usize) -> (atom: Loan) {
        Loan::from(index)
    }
}

impl Interned for Point {
    fn at(index: usize) -> (atom: Point) {
        Point::from(index)
    }
}

/// Each tuple of `facts` holds the indices of the names in the line at its
/// place in the file of its relation.
pub open spec fn holds_rows_of<R: Atom, L: Atom, P: Atom>(
    tables: TablesView,
    lines: &FactLines,
    facts: &AllFacts<R, L, P>,
) -> bool {
    &&& facts.borrow_region@.len() == lines.borrow_region@.len()
    &&& forall|i: int|
        0 <= i < facts.borrow_region@.len() ==> is_row_of(
            tables,
            kinds_of(Relation::BorrowRegion),
            columns_of(lines.borrow_region@[i]@),
            seq![
                (#[trigger] facts.borrow_region@[i]).0.index_spec(),
                facts.borrow_region@[i].1.index_spec(),
                facts.borrow_region@[i].2.index_spec(),
            ],
        )
    &&& facts.universal_region@.len() == lines.universal_region@.len()
    &&& forall|i: int|
        0 <= i < facts.universal_region@.len() ==> is_row_of(
            tables,
            kinds_of(Relation::UniversalRegion),
            columns_of(lines.universal_region@[i]@),
            seq![(#[trigger] facts.universal_region@[i]).index_spec()],
        )
    &&& facts.cfg_edge@.len() == lines.cfg_edge@.len()
    &&& forall|i: int|
        0 <= i < facts.cfg_edge@.len() ==> is_row_of(
            tables,
            kinds_of(Relation::CfgEdge),
            columns_of(lines.cfg_edge@[i]@),
            seq![
                (#[trigger] facts.cfg_edge@[i]).0.index_spec(),
                facts.cfg_edge@[i].1.index_spec(),
            ],
        )
    &&& facts.killed@.len() == lines.killed@.len()
    &&& forall|i: int|
        0 <= i < facts.killed@.len() ==> is_row_of(
            tables,
            kinds_of(Relation::Killed),
            columns_of(lines.killed@[i]@),
            seq![(#[trigger] facts.killed@[i]).0.index_spec(), facts.killed@[i].1.index_spec()],
        )
    &&& facts.outlives@.len() == lines.outlives@.len()
    &&& forall|i: int|
        0 <= i < facts.outlives@.len() ==> is_row_of(
            tables,
            kinds_of(Relation::Outlives),
            columns_of(lines.outlives@[i]@),
            seq![
                (#[trigger] facts.outlives@[i]).0.index_spec(),
                facts.outlives@[i].1.index_spec(),
                facts.outlives@[i].2.index_spec(),
            ],
        )
    &&& facts.region_live_at@.len() == lines.region_live_at@.len()
    &&& forall|i: int|
        0 <= i < facts.region_live_at@.len() ==> is_row_of(
            tables,
            kinds_of(Relation::RegionLiveAt),
            columns_of(lines.region_live_at@[i]@),
            seq![
                (#[trigger] facts.region_live_at@[i]).0.index_spec(),
                facts.region_live_at@[i].1.index_spec(),
            ],
        )
    &&& facts.invalidates@.len() == lines.invalidates@.len()
    &&& forall|i: int|
        0 <= i < facts.invalidates@.len() ==> is_row_of(
            tables,
            kinds_of(Relation::Invalidates),
            columns_of(lines.invalidates@[i]@),
            seq![
                (#[trigger] facts.invalidates@[i]).0.index_spec(),
                facts.invalidates@[i].1.index_spec(),
            ],
        )
}

/// The rows as tuples of one atom.
fn singles<A: Interned>(rows: &Vec<Vec<usize>>) -> (tuples: Vec<A>)
    requires
        forall|i: int| 0 <= i < rows@.len() ==> (#[trigger] rows@[i])@.len() == 1,
    ensures
        tuples@.len() == rows@.len(),
        forall|i: int|
            0 <= i < rows@.len() ==> seq![(#[trigger] tuples@[i]).index_spec()] == rows@[i]@,
{
    let mut tuples: Vec<A> = Vec::new();
    let mut i: usize = 0;
    while i < rows.len()
        invariant
            0 <= i <= rows.len(),
            tuples@.len() == i,
            forall|j: int| 0 <= j < rows@.len() ==> (#[trigger] rows@[j])@.len() == 1,
            forall|j: int| 0 <= j < i ==> seq![(#[trigger] tuples@[j]).index_spec()] == rows@[j]@,
        decreases rows.len() - i,
    {
        let row = &rows[i];
        tuples.push(A::at(row[0]));
        proof {
            assert(seq![tuples@[i as int].index_spec()] =~= rows@[i as int]@);
        }
        i += 1;
    }
    tuples
}

/// The rows as tuples of two atoms.
fn pairs<A: Interned, B: Interned>(rows: &Vec<Vec<usize>>) -> (tuples: Vec<(A, B)>)
    requires
        forall|i: int| 0 <= i < rows@.len() ==> (#[trigger] rows@[i])@.len() == 2,
    ensures
        tuples@.len() == rows@.len(),
        forall|i: int|
            0 <= i < rows@.len() ==> seq![
                (#[trigger] tuples@[i]).0.index_spec(),
                tuples@[i].1.index_spec(),
            ] == rows@[i]@,
{
    let mut tuples: Vec<(A, B)> = Vec::new();
    let mut i: usize = 0;
    while i < rows.len()
        invariant
            0 <= i <= rows.len(),
            tuples@.len() == i,
            forall|j: int| 0 <= j < rows@.len() ==> (#[trigger] rows@[j])@.len() == 2,
            forall|j: int|
                0 <= j < i ==> seq![
                    (#[trigger] tuples@[j]).0.index_spec(),
                    tuples@[j].1.index_spec(),
                ] == rows@[j]@,
        decreases rows.len() - i,
    {
        let row = &rows[i];
        tuples.push((A::at(row[0]), B::at(row[1])));
        proof {
            assert(seq![tuples@[i as int].0.index_spec(), tuples@[i as int].1.index_spec()]
                =~= rows@[i as int]@);
        }
        i += 1;
    }
    tuples
}

/// The rows as tuples of three atoms.
fn triples<A: Interned, B: Interned, C: Interned>(rows: &Vec<Vec<usize>>) -> (tuples: Vec<
    (A, B, C),
>)
    requires
        forall|i: int| 0 <= i < rows@.len() ==> (#[trigger] rows@[i])@.len() == 3,
    ensures
        tuples@.len() == rows@.len(),
        forall|i: int|
            0 <= i < rows@.len() ==> seq![
                (#[trigger] tuples@[i]).0.index_spec(),
                tuples@[i].1.index_spec(),
                tuples@[i].2.index_spec(),
            ] == rows@[i]@,
{
    let mut tuples: Vec<(A, B, C)> = Vec::new();
    let mut i: usize = 0;
    while i < rows.len()
        invariant
            0 <= i <= rows.len(),
            tuples@.len() == i,
            forall|j: int| 0 <= j < rows@.len() ==> (#[trigger] rows@[j])@.len() == 3,
            forall|j: int|
                0 <= j < i ==> seq![
                    (#[trigger] tuples@[j]).0.index_spec(),
                    tuples@[j].1.index_spec(),
                    tuples@[j].2.index_spec(),
                ] == rows@[j]@,
        decreases rows.len() - i,
    {
        let row = &rows[i];
        tuples.push((A::at(row[0]), B::at(row[1]), C::at(row[2])));
        proof {
            assert(seq![
                tuples@[i as int].0.index_spec(),
                tuples@[i as int].1.index_spec(),
                tuples@[i as int].2.index_spec(),
            ] =~= rows@[i as int]@);
        }
        i += 1;
    }
    tuples
}

impl InternerTables {
    /// Reads each of `lines` as a row of `kinds`, in their order, and stops
    /// at the first line that is none: the error names it by its number,
    /// counted from one.
    pub fn parse_rows(&mut self, kinds: &Vec<Kind>, lines: &Vec<Vec<u8>>) -> (parsed: Result<
        Vec<Vec<usize>>,
        (usize, RowError),
    >)
        requires
            old(self).wf(),
        ensures
            final(self).wf(),
            old(self)@.is_kept_by(final(self)@),
            match parsed {
                Ok(rows) => {
                    &&& are_rows(kinds@, lines_view(lines@), lines@.len() as int)
                    &&& are_rows_of(final(self)@, kinds@, lines_view(lines@), rows@)
                    &&& final(self)@ == old(self)@.interned_lines(
                        kinds@,
                        lines_view(lines@),
                        lines@.len() as int,
                    )
                },
                Err((number, error)) => {
                    &&& 1 <= number <= lines@.len()
                    &&& are_rows(kinds@, lines_view(lines@), number - 1)
                    &&& row_error(kinds@, lines@[number - 1]@) == Some(error)
                    &&& final(self)@ == old(self)@.interned_lines(
                        kinds@,
                        lines_view(lines@),
                        number - 1,
                    )
                },
            },
    {
        let ghost all = lines_view(lines@);
        let mut rows: Vec<Vec<usize>> = Vec::new();
        let mut i: usize = 0;
        while i < lines.len()
            invariant
                0 <= i <= lines.len(),
                all == lines_view(lines@),
                self.wf(),
                old(self)@.is_kept_by(self@),
                are_rows(kinds@, all, i as int),
                rows@.len() == i,
                forall|j: int|
                    0 <= j < i ==> is_row_of(self@, kinds@, columns_of(all[j]), (#[trigger] rows@[j])@),
                self@ == old(self)@.interned_lines(kinds@, all, i as int),
            decreases lines.len() - i,
        {
            let ghost before = self@;
            let ghost read = rows@;
            match self.parse_row(kinds, &lines[i]) {
                Ok(row) => {
                    rows.push(row);
                    proof {
                        assert forall|j: int| 0 <= j < i + 1 implies is_row_of(
                            self@,
                            kinds@,
                            columns_of(all[j]),
                            (#[trigger] rows@[j])@,
                        ) by {
                            if j < i {
                                assert(rows@[j] == read[j]);
                                lemma_row_is_kept(
                                    before,
                                    self@,
                                    kinds@,
                                    columns_of(all[j]),
                                    read[j]@,
                                );
                            }
                        }
                    }
                },
                Err(error) => {
                    return Err((i + 1, error));
                },
            }
            i += 1;
        }
        Ok(rows)
    }
}

/// Reads the seven relations from the lines of their files, in the order
/// borrow_region, universal_region, cfg_edge, killed, outlives,
/// region_live_at, invalidates. Every name is interned in the table of its
/// kind, so that one name is one atom in every file. The first line that
/// has too few or too many columns for its relation ends the reading.
pub fn load_tab_delimited_facts<R: Interned, L: Interned, P: Interned>(
    tables: &mut InternerTables,
    lines: &FactLines,
) -> (loaded: Result<AllFacts<R, L, P>, LoadError>)
    requires
        old(tables).wf(),
    ensures
        final(tables).wf(),
        old(tables)@.is_kept_by(final(tables)@),
        match loaded {
            Ok(facts) => {
                &&& forall|relation: Relation| lines.is_readable(relation)
                &&& holds_rows_of(final(tables)@, lines, &facts)
                &&& final(tables)@ == old(tables)@.interned_files(lines, 7)
            },
            Err(error) => {
                &&& is_first_error(lines, error)
                &&& final(tables)@ == old(tables)@.interned_before(lines, error)
            },
        },
{
    let ghost start = tables@;
    let relation = Relation::BorrowRegion;
    let borrow_region = match tables.parse_rows(&relation_kinds(relation), &lines.borrow_region) {
        Ok(rows) => rows,
        Err((line, error)) => {
            return Err(LoadError { relation, line, error });
        },
    };
    let ghost t0 = tables@;
    let relation = Relation::UniversalRegion;
    let universal_region = match tables.parse_rows(
        &relation_kinds(relation),
        &lines.universal_region,
    ) {
        Ok(rows) => rows,
        Err((line, error)) => {
            return Err(LoadError { relation, line, error });
        },
    };
    let ghost t1 = tables@;
    let relation = Relation::CfgEdge;
    let cfg_edge = match tables.parse_rows(&relation_kinds(relation), &lines.cfg_edge) {
        Ok(rows) => rows,
        Err((line, error)) => {
            return Err(LoadError { relation, line, error });
        },
    };
    let ghost t2 = tables@;
    let relation = Relation::Killed;
    let killed = match tables.parse_rows(&relation_kinds(relation), &lines.killed) {
        Ok(rows) => rows,
        Err((line, error)) => {
            return Err(LoadError { relation, line, error });
        },
    };
    let ghost t3 = tables@;
    let relation = Relation::Outlives;
    let outlives = match tables.parse_rows(&relation_kinds(relation), &lines.outlives) {
        Ok(rows) => rows,
        Err((line, error)) => {
            return Err(LoadError { relation, line, error });
        },
    };
    let ghost t4 = tables@;
    let relation = Relation::RegionLiveAt;
    let region_live_at = match tables.parse_rows(&relation_kinds(relation), &lines.region_live_at) {
        Ok(rows) => rows,
        Err((line, error)) => {
            return Err(LoadError { relation, line, error });
        },
    };
    let ghost t5 = tables@;
    let relation = Relation::Invalidates;
    let invalidates = match tables.parse_rows(&relation_kinds(relation), &lines.invalidates) {
        Ok(rows) => rows,
        Err((line, error)) => {
            return Err(LoadError { relation, line, error });
        },
    };
    let ghost end = tables@;
    proof {
        assert(t0.is_kept_by(end) && t1.is_kept_by(end) && t2.is_kept_by(end) && t3.is_kept_by(end)
            && t4.is_kept_by(end) && t5.is_kept_by(end));
        assert forall|i: int| 0 <= i < borrow_region@.len() implies is_row_of(
            end,
            kinds_of(Relation::BorrowRegion),
            columns_of(lines.borrow_region@[i]@),
            (#[trigger] borrow_region@[i])@,
        ) by {
            lemma_row_is_kept(
                t0,
                end,
                kinds_of(Relation::BorrowRegion),
                columns_of(lines_view(lines.borrow_region@)[i]),
                borrow_region@[i]@,
            );
        }
        assert forall|i: int| 0 <= i < universal_region@.len() implies is_row_of(
            end,
            kinds_of(Relation::UniversalRegion),
            columns_of(lines.universal_region@[i]@),
            (#[trigger] universal_region@[i])@,
        ) by {
            lemma_row_is_kept(
                t1,
                end,
                kinds_of(Relation::UniversalRegion),
                columns_of(lines_view(lines.universal_region@)[i]),
                universal_region@[i]@,
            );
        }
        assert forall|i: int| 0 <= i < cfg_edge@.len() implies is_row_of(
            end,
            kinds_of(Relation::CfgEdge),
            columns_of(lines.cfg_edge@[i]@),
            (#[trigger] cfg_edge@[i])@,
        ) by {
            lemma_row_is_kept(
                t2,
                end,
                kinds_of(Relation::CfgEdge),
                columns_of(lines_view(lines.cfg_edge@)[i]),
                cfg_edge@[i]@,
            );
        }
        assert forall|i: int| 0 <= i < killed@.len() implies is_row_of(
            end,
            kinds_of(Relation::Killed),
            columns_of(lines.killed@[i]@),
            (#[trigger] killed@[i])@,
        ) by {
            lemma_row_is_kept(
                t3,
                end,
                kinds_of(Relation::Killed),
                columns_of(lines_view(lines.killed@)[i]),
                killed@[i]@,
            );
        }
        assert forall|i: int| 0 <= i < outlives@.len() implies is_row_of(
            end,
            kinds_of(Relation::Outlives),
            columns_of(lines.outlives@[i]@),
            (#[trigger] outlives@[i])@,
        ) by {
            lemma_row_is_kept(
                t4,
                end,
                kinds_of(Relation::Outlives),
                columns_of(lines_view(lines.outlives@)[i]),
                outlives@[i]@,
            );
        }
        assert forall|i: int| 0 <= i < region_live_at@.len() implies is_row_of(
            end,
            kinds_of(Relation::RegionLiveAt),
            columns_of(lines.region_live_at@[i]@),
            (#[trigger] region_live_at@[i])@,
        ) by {
            lemma_row_is_kept(
                t5,
                end,
                kinds_of(Relation::RegionLiveAt),
                columns_of(lines_view(lines.region_live_at@)[i]),
                region_live_at@[i]@,
            );
        }
        assert forall|i: int| 0 <= i < invalidates@.len() implies is_row_of(
            end,
            kinds_of(Relation::Invalidates),
            columns_of(lines.invalidates@[i]@),
            (#[trigger] invalidates@[i])@,
        ) by {
            assert(columns_of(lines_view(lines.invalidates@)[i]) == columns_of(
                lines.invalidates@[i]@,
            ));
        }
    }
    let facts: AllFacts<R, L, P> = AllFacts {
        borrow_region: triples(&borrow_region),
        universal_region: singles(&universal_region),
        cfg_edge: pairs(&cfg_edge),
        killed: pairs(&killed),
        outlives: triples(&outlives),
        region_live_at: pairs(&region_live_at),
        invalidates: pairs(&invalidates),
    };
    proof {
        assert forall|relation: Relation| lines.is_readable(relation) by {
            match relation {
                Relation::BorrowRegion => {},
                Relation::UniversalRegion => {},
                Relation::CfgEdge => {},
                Relation::Killed => {},
                Relation::Outlives => {},
                Relation::RegionLiveAt => {},
                Relation::Invalidates => {},
            }
        }
    }
    Ok(facts)
}

} // verus!
