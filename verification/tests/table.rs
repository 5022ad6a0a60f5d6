use chore_list::chore::{Chore, Owner};
use chore_list::table::{
    build_table, ColumnSize, COLUMN_MIN_WIDTH, COLUMN_SHARE, HEADER_HEIGHT, ROW_HEIGHT,
};

fn chore(name: &str, due: &str, owner: Owner) -> Chore {
    Chore { name: name.to_string(), due: due.to_string(), owner }
}

#[test]
fn table_has_three_columns_and_their_titles() {
    let table = build_table(&[]);
    assert!(table.striped);
    assert_eq!(
        table.columns,
        vec![
            ColumnSize::Relative { percent: 30, at_least: 100 },
            ColumnSize::Relative { percent: 30, at_least: 100 },
            ColumnSize::Remainder,
        ]
    );
    assert_eq!(table.header, vec!["Chore".to_string(), "Due".to_string(), "Actions".to_string()]);
    assert_eq!(table.header_height, 20);
    assert_eq!(table.row_height, 30);
    assert_ne!(table.header_height, table.row_height);
    assert!(table.rows.is_empty());
}

#[test]
fn table_sizes_are_the_named_ones() {
    assert_eq!(HEADER_HEIGHT, 20);
    assert_eq!(ROW_HEIGHT, 30);
    assert_eq!(COLUMN_SHARE, 30);
    assert_eq!(COLUMN_MIN_WIDTH, 100);
    let table = build_table(&[]);
    assert_eq!(table.header_height, HEADER_HEIGHT);
    assert_eq!(table.row_height, ROW_HEIGHT);
    assert_eq!(
        table.columns[0],
        ColumnSize::Relative { percent: COLUMN_SHARE, at_least: COLUMN_MIN_WIDTH }
    );
}

#[test]
fn table_has_one_row_for_each_chore_in_order() {
    let chores = vec![
        chore("Staubsaugen", "Today", Owner::Linus),
        chore("Boden", "Tomorrow", Owner::Johannes),
        chore("Staubsaugen", "Today", Owner::Linus),
    ];
    let table = build_table(&chores);
    let rows: Vec<(String, String, String)> =
        table.rows.iter().map(|r| (r.name.clone(), r.due.clone(), r.action.clone())).collect();
    assert_eq!(
        rows,
        vec![
            ("Staubsaugen".to_string(), "Today".to_string(), "done".to_string()),
            ("Boden".to_string(), "Tomorrow".to_string(), "done".to_string()),
            ("Staubsaugen".to_string(), "Today".to_string(), "done".to_string()),
        ]
    );
}
