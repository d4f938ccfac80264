use nagare::tabular::{class_index, csv_records};

fn s(x: &str) -> Vec<char> {
    x.chars().collect()
}

#[test]
fn records_split_and_trim() {
    let r = csv_records("1.0,2.0,a\n3.0,4.0,b\n5.0,6.0,a\n");
    assert_eq!(r.len(), 3);
    assert_eq!(r[0], vec![s("1.0"), s("2.0"), s("a")]);
    assert_eq!(r[2], vec![s("5.0"), s("6.0"), s("a")]);
}

#[test]
fn records_skip_blank_and_comment_lines() {
    let text = "# header\n\n  1 , 2 ,x  \r\n   \n#2,3,y\n4,5 ,\u{3000}z\u{a0}";
    let r = csv_records(text);
    assert_eq!(r, vec![vec![s("1"), s("2"), s("x")], vec![s("4"), s("5"), s("z")]]);
}

#[test]
fn records_keep_empty_fields_and_inner_spaces() {
    let r = csv_records("a b,,c\n,\n");
    assert_eq!(r, vec![vec![s("a b"), s(""), s("c")], vec![s(""), s("")]]);
    assert!(csv_records("").is_empty());
    assert!(csv_records("\n\n \t\n").is_empty());
}

#[test]
fn class_names_are_sorted_unique_and_index_the_rows() {
    let labels = vec![s("b"), s("a"), s("b"), s("ab"), s("B")];
    let (names, y) = class_index(&labels);
    assert_eq!(names, vec![s("B"), s("a"), s("ab"), s("b")]);
    assert_eq!(y, vec![3, 1, 3, 2, 0]);
}

#[test]
fn label_column_indexes_sorted_classes() {
    // Labels "a" < "b" sorted; rows a, b, a.
    let r = csv_records("1.0,2.0,a\n3.0,4.0,b\n5.0,6.0,a\n");
    let labels: Vec<Vec<char>> = r.iter().map(|row| row[row.len() - 1].clone()).collect();
    let (names, y) = class_index(&labels);
    assert_eq!(names, vec![s("a"), s("b")]);
    assert_eq!(y, vec![0, 1, 0]);
    let (none, ny) = class_index(&vec![]);
    assert!(none.is_empty() && ny.is_empty());
}
