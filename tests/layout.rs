use ogma::layout::{col_plan, row_plan, ColSlot, RowSlot};

#[test]
fn forty_rows_with_header_are_elided() {
    let plan = row_plan(40, true);
    let mut want: Vec<RowSlot> = (1..6).map(RowSlot::Row).collect();
    want.push(RowSlot::Elided(29));
    want.extend((35..40).map(RowSlot::Row));
    assert_eq!(plan, want);
    assert_eq!(col_plan(3), vec![ColSlot::Col(0), ColSlot::Col(1), ColSlot::Col(2)]);
}

#[test]
fn forty_rows_without_header() {
    let plan = row_plan(40, false);
    assert_eq!(plan.len(), 11);
    assert_eq!(plan[0], RowSlot::Row(0));
    assert_eq!(plan[5], RowSlot::Elided(30));
    assert_eq!(plan[6], RowSlot::Row(35));
    assert_eq!(plan[10], RowSlot::Row(39));
}

#[test]
fn small_tables_show_every_row() {
    assert_eq!(row_plan(3, true), vec![RowSlot::Row(1), RowSlot::Row(2)]);
    assert_eq!(row_plan(30, false).len(), 30);
    assert_eq!(row_plan(0, true), Vec::<RowSlot>::new());
    assert_eq!(row_plan(31, true)[5], RowSlot::Elided(20));
}

#[test]
fn wide_tables_elide_columns() {
    assert_eq!(col_plan(7).len(), 7);
    assert_eq!(
        col_plan(10),
        vec![
            ColSlot::Col(0),
            ColSlot::Col(1),
            ColSlot::Col(2),
            ColSlot::Elided(4),
            ColSlot::Col(7),
            ColSlot::Col(8),
            ColSlot::Col(9),
        ]
    );
}
