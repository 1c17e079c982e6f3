use polonius_engine::tab_delim::{
    Interned,
    load_tab_delimited_facts, relation_kinds, same_bytes, split_columns, FactLines, Interner,
    InternerTables, Kind, LoadError, Relation, RowError,
};
use polonius_engine::{AllFacts, Atom, Loan, Point, Region};

fn bytes(text: &str) -> Vec<u8> {
    text.as_bytes().to_vec()
}

fn lines(texts: &[&str]) -> Vec<Vec<u8>> {
    texts.iter().map(|t| bytes(t)).collect()
}

fn no_lines() -> FactLines {
    FactLines {
        borrow_region: Vec::new(),
        universal_region: Vec::new(),
        cfg_edge: Vec::new(),
        killed: Vec::new(),
        outlives: Vec::new(),
        region_live_at: Vec::new(),
        invalidates: Vec::new(),
    }
}

#[test]
fn same_bytes_compares_contents() {
    assert!(same_bytes(&bytes("abc"), &bytes("abc")));
    assert!(!same_bytes(&bytes("abc"), &bytes("abd")));
    assert!(!same_bytes(&bytes("abc"), &bytes("ab")));
    assert!(same_bytes(&bytes(""), &bytes("")));
}

#[test]
fn a_line_splits_at_its_tabs() {
    assert_eq!(split_columns(&bytes("a\tbc\td")), lines(&["a", "bc", "d"]));
    assert_eq!(split_columns(&bytes("abc")), lines(&["abc"]));
    assert_eq!(split_columns(&bytes("")), lines(&[""]));
    assert_eq!(split_columns(&bytes("a\t")), lines(&["a", ""]));
    assert_eq!(split_columns(&bytes("\t\t")), lines(&["", "", ""]));
}

#[test]
fn a_name_keeps_its_index() {
    let mut table = Interner::new();
    assert_eq!(table.len(), 0);
    assert_eq!(table.intern(&bytes("x")), 0);
    assert_eq!(table.intern(&bytes("y")), 1);
    assert_eq!(table.intern(&bytes("x")), 0);
    assert_eq!(table.intern(&bytes("z")), 2);
    assert_eq!(table.intern(&bytes("y")), 1);
    assert_eq!(table.len(), 3);
    assert_eq!(table.name(1), Some(&bytes("y")));
    assert_eq!(table.name(3), None);
}

#[test]
fn each_kind_has_its_own_table() {
    let mut tables = InternerTables::new();
    assert_eq!(tables.intern(Kind::Region, &bytes("a")), 0);
    assert_eq!(tables.intern(Kind::Loan, &bytes("a")), 0);
    assert_eq!(tables.intern(Kind::Point, &bytes("b")), 0);
    assert_eq!(tables.intern(Kind::Point, &bytes("a")), 1);
    assert_eq!(tables.intern(Kind::Region, &bytes("b")), 1);
    assert_eq!(tables.regions.len(), 2);
    assert_eq!(tables.loans.len(), 1);
    assert_eq!(tables.points.len(), 2);
}

#[test]
fn relation_kinds_follow_the_schema() {
    assert_eq!(
        relation_kinds(Relation::BorrowRegion),
        vec![Kind::Region, Kind::Loan, Kind::Point]
    );
    assert_eq!(relation_kinds(Relation::UniversalRegion), vec![Kind::Region]);
    assert_eq!(relation_kinds(Relation::CfgEdge), vec![Kind::Point, Kind::Point]);
    assert_eq!(relation_kinds(Relation::Killed), vec![Kind::Loan, Kind::Point]);
    assert_eq!(
        relation_kinds(Relation::Outlives),
        vec![Kind::Region, Kind::Region, Kind::Point]
    );
    assert_eq!(relation_kinds(Relation::RegionLiveAt), vec![Kind::Region, Kind::Point]);
    assert_eq!(relation_kinds(Relation::Invalidates), vec![Kind::Point, Kind::Loan]);
}

#[test]
fn a_row_is_interned_column_by_column() {
    let mut tables = InternerTables::new();
    let kinds = vec![Kind::Point, Kind::Point];
    assert_eq!(tables.parse_row(&kinds, &bytes("p\tq")), Ok(vec![0, 1]));
    assert_eq!(tables.parse_row(&kinds, &bytes("q\tr")), Ok(vec![1, 2]));
    assert_eq!(tables.parse_row(&kinds, &bytes("r\tr")), Ok(vec![2, 2]));
    assert_eq!(tables.points.len(), 3);
    assert_eq!(tables.regions.len(), 0);
}

#[test]
fn a_short_row_is_refused() {
    let mut tables = InternerTables::new();
    let kinds = vec![Kind::Region, Kind::Loan, Kind::Point];
    assert_eq!(tables.parse_row(&kinds, &bytes("r\tl")), Err(RowError::MissingColumn));
    assert_eq!(tables.parse_row(&kinds, &bytes("")), Err(RowError::MissingColumn));
    assert_eq!(tables.regions.len(), 0);
    assert_eq!(tables.loans.len(), 0);
}

#[test]
fn a_long_row_is_refused() {
    let mut tables = InternerTables::new();
    let kinds = vec![Kind::Region];
    assert_eq!(tables.parse_row(&kinds, &bytes("r\tl")), Err(RowError::ExtraData));
    assert_eq!(tables.parse_row(&kinds, &bytes("r\t")), Err(RowError::ExtraData));
    assert_eq!(tables.regions.len(), 0);
}

#[test]
fn rows_stop_at_the_first_bad_line() {
    let mut tables = InternerTables::new();
    let kinds = vec![Kind::Loan, Kind::Point];
    assert_eq!(
        tables.parse_rows(&kinds, &lines(&["a\tb", "c\td", "e", "f\tg\th"])),
        Err((3, RowError::MissingColumn))
    );
    assert_eq!(tables.loans.len(), 2);
    assert_eq!(
        tables.parse_rows(&kinds, &lines(&["a\tb\tc"])),
        Err((1, RowError::ExtraData))
    );
    assert_eq!(
        tables.parse_rows(&kinds, &lines(&["c\tb", "a\td"])),
        Ok(vec![vec![1, 0], vec![0, 1]])
    );
    assert_eq!(tables.parse_rows(&kinds, &Vec::new()), Ok(Vec::new()));
}

#[test]
fn facts_are_loaded_with_shared_names() {
    let mut tables = InternerTables::new();
    let files = FactLines {
        borrow_region: lines(&["'a\tL0\tMid(bb0[1])"]),
        universal_region: lines(&["'static", "'a"]),
        cfg_edge: lines(&["Start(bb0[0])\tMid(bb0[0])", "Mid(bb0[0])\tMid(bb0[1])"]),
        killed: lines(&["L0\tMid(bb0[0])"]),
        outlives: lines(&["'a\t'static\tStart(bb0[0])"]),
        region_live_at: lines(&["'b\tMid(bb0[1])", "'a\tStart(bb0[0])"]),
        invalidates: lines(&["Mid(bb0[1])\tL1"]),
    };
    let facts: AllFacts<usize, usize, usize> =
        load_tab_delimited_facts(&mut tables, &files).ok().unwrap();
    // regions: 'a = 0, 'static = 1, 'b = 2; loans: L0 = 0, L1 = 1;
    // points: Mid(bb0[1]) = 0, Start(bb0[0]) = 1, Mid(bb0[0]) = 2.
    assert_eq!(facts.borrow_region, vec![(0, 0, 0)]);
    assert_eq!(facts.universal_region, vec![1, 0]);
    assert_eq!(facts.cfg_edge, vec![(1, 2), (2, 0)]);
    assert_eq!(facts.killed, vec![(0, 2)]);
    assert_eq!(facts.outlives, vec![(0, 1, 1)]);
    assert_eq!(facts.region_live_at, vec![(2, 0), (0, 1)]);
    assert_eq!(facts.invalidates, vec![(0, 1)]);
    assert_eq!(tables.regions.name(2), Some(&bytes("'b")));
    assert_eq!(tables.points.name(1), Some(&bytes("Start(bb0[0])")));
    assert_eq!(tables.loans.name(1), Some(&bytes("L1")));
}

#[test]
fn empty_files_give_an_empty_store() {
    let mut tables = InternerTables::new();
    let facts: AllFacts<usize, usize, usize> =
        load_tab_delimited_facts(&mut tables, &no_lines()).ok().unwrap();
    assert!(facts.cfg_edge.is_empty());
    assert!(facts.borrow_region.is_empty());
    assert_eq!(tables.points.len(), 0);
}

#[test]
fn loading_names_the_first_bad_line() {
    let mut tables = InternerTables::new();
    let mut files = no_lines();
    files.cfg_edge = lines(&["a\tb", "b"]);
    files.killed = lines(&["x\ty\tz"]);
    let error = load_tab_delimited_facts::<usize, usize, usize>(&mut tables, &files)
        .err()
        .unwrap();
    assert_eq!(
        error,
        LoadError { relation: Relation::CfgEdge, line: 2, error: RowError::MissingColumn }
    );
    files.cfg_edge = lines(&["a\tb"]);
    let error = load_tab_delimited_facts::<usize, usize, usize>(&mut tables, &files)
        .err()
        .unwrap();
    assert_eq!(
        error,
        LoadError { relation: Relation::Killed, line: 1, error: RowError::ExtraData }
    );
}

#[test]
fn loaded_facts_can_be_simplified() {
    let mut tables = InternerTables::new();
    let mut files = no_lines();
    files.cfg_edge = lines(&["a\tb", "b\tc", "c\td"]);
    files.killed = lines(&["L\tc"]);
    let mut facts: AllFacts<usize, usize, usize> =
        load_tab_delimited_facts(&mut tables, &files).ok().unwrap();
    facts.simplify_cfg();
    assert_eq!(facts.cfg_edge, vec![(0, 2), (2, 3)]);
}

#[test]
fn typed_atoms_convert_both_ways() {
    let region = Region::from(4);
    let loan = Loan::from(5);
    let point = Point::from(6);
    assert_eq!(region.index(), 4);
    assert_eq!(loan.index(), 5);
    assert_eq!(point.index(), 6);
    assert_eq!(usize::from(region), 4);
    assert_eq!(usize::from(loan), 5);
    assert_eq!(usize::from(point), 6);
    let back: usize = point.into();
    assert_eq!(back, 6);
    assert_eq!(Region::from(4), region);
    assert_ne!(Region::from(3), region);
    assert!(Point::from(1) < Point::from(2));
}

#[test]
fn interned_atoms_have_the_given_index() {
    assert_eq!(<usize as Interned>::at(3), 3);
    assert_eq!(<Region as Interned>::at(3), Region::from(3));
    assert_eq!(<Loan as Interned>::at(0).index(), 0);
    assert_eq!(<Point as Interned>::at(9).index(), 9);
}

#[test]
fn facts_are_loaded_as_typed_atoms() {
    let mut tables = InternerTables::new();
    let mut files = no_lines();
    files.cfg_edge = lines(&["a\tb", "b\tc", "c\td"]);
    files.region_live_at = lines(&["'r\tc", "'s\tc"]);
    files.invalidates = lines(&["d\tL"]);
    let mut facts: AllFacts<Region, Loan, Point> =
        load_tab_delimited_facts(&mut tables, &files).ok().unwrap();
    assert_eq!(
        facts.cfg_edge,
        vec![
            (Point::from(0), Point::from(1)),
            (Point::from(1), Point::from(2)),
            (Point::from(2), Point::from(3)),
        ]
    );
    assert_eq!(
        facts.region_live_at,
        vec![(Region::from(0), Point::from(2)), (Region::from(1), Point::from(2))]
    );
    assert_eq!(facts.invalidates, vec![(Point::from(3), Loan::from(0))]);
    facts.simplify_cfg();
    assert_eq!(
        facts.cfg_edge,
        vec![(Point::from(0), Point::from(2)), (Point::from(2), Point::from(3))]
    );
}
