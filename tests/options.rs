use dit::options::{parse_usize, ListFormat, ListMode, ListProperties, StatusProperties};
use dit::table::{Column, Table};

#[test]
fn whole_numbers() {
    assert_eq!(parse_usize("12"), Ok(12));
    assert_eq!(parse_usize("+7"), Ok(7));
    assert_eq!(parse_usize("0"), Ok(0));
    assert_eq!(parse_usize("18446744073709551615"), Ok(18446744073709551615));
    assert_eq!(parse_usize("18446744073709551616"), Err("18446744073709551616".to_string()));
    assert_eq!(parse_usize(""), Err(String::new()));
    assert_eq!(parse_usize("+"), Err("+".to_string()));
    assert_eq!(parse_usize("-1"), Err("-1".to_string()));
    assert_eq!(parse_usize("1a"), Err("1a".to_string()));
}

#[test]
fn option_names() {
    assert_eq!(StatusProperties::parse("total-effort"), Ok(StatusProperties::TotalEffort));
    assert_eq!(StatusProperties::parse("id"), Ok(StatusProperties::Id));
    assert_eq!(StatusProperties::parse("nope"), Err("nope".to_string()));
    assert_eq!(ListProperties::parse("effort"), Ok(ListProperties::Effort));
    assert_eq!(ListProperties::parse("total-effort"), Err("total-effort".to_string()));
    assert_eq!(ListMode::parse("group-by-day"), Ok(ListMode::GroupByDay));
    assert_eq!(ListMode::parse("daily"), Ok(ListMode::Daily));
    assert_eq!("plain".parse::<ListMode>(), Ok(ListMode::Plain));
    assert_eq!(ListFormat::parse("json-lines"), Ok(ListFormat::JsonLines));
    assert_eq!(ListFormat::parse("xml"), Err("xml".to_string()));
}

struct Foo<'a> {
    a: i32,
    b: &'a str,
}

type Cell = Box<dyn Fn(&Foo) -> String>;

#[test]
fn test_table() {
    let table = Table::new(vec![
        Column::new("Foo", Box::new(|x: &Foo| x.a.to_string()) as Cell),
        Column::new("B", Box::new(|x: &Foo| x.b.to_string()) as Cell),
    ]);

    let data = vec![Foo { a: 12, b: "foo" }, Foo { a: 32, b: "barber" }, Foo { a: 53, b: "bin" }];

    for line in table.render(&data) {
        println!("{}", line);
    }
}

#[test]
fn table_layout() {
    let table = Table::new(vec![
        Column::new("Foo", Box::new(|x: &Foo| x.a.to_string()) as Cell),
        Column::new("B", Box::new(|x: &Foo| x.b.to_string()) as Cell),
    ]);
    let data = vec![Foo { a: 12, b: "foo" }, Foo { a: 32, b: "barber" }];
    let cells = table.select(&data);
    assert_eq!(cells, vec![vec!["12".to_string(), "foo".to_string()], vec!["32".to_string(), "barber".to_string()]]);
    assert_eq!(table.calc_widths(&cells), vec![3, 6]);
    assert_eq!(
        table.render(&data),
        vec![
            "| Foo | B      |".to_string(),
            "|-----+--------|".to_string(),
            "| 12  | foo    |".to_string(),
            "| 32  | barber |".to_string(),
        ]
    );
    assert_eq!(Column::new("X", Box::new(|x: &Foo| x.b.to_uppercase()) as Cell).select(&data[0]), "FOO");
}
