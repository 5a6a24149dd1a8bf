use restaurant_core::models::{
    db_url, select_query, Menu, Order, OrderParams, OrderRow, Table,
};
use restaurant_core::text::{i32_to_string, parse_i32, parse_id_list};

fn order_row(order_id: i32, table_id: i32, menu_id: i32) -> OrderRow {
    OrderRow {
        order_id,
        table_id,
        seconds_left: 90,
        is_prepared: false,
        is_deleted: false,
        menu_id,
        menu_name: format!("dish {}", menu_id),
        menu_description: "tasty".to_string(),
    }
}

#[test]
fn renders_integers() {
    assert_eq!(i32_to_string(0), "0");
    assert_eq!(i32_to_string(7), "7");
    assert_eq!(i32_to_string(1234), "1234");
    assert_eq!(i32_to_string(-56), "-56");
    assert_eq!(i32_to_string(i32::MAX), "2147483647");
    assert_eq!(i32_to_string(i32::MIN), "-2147483648");
}

#[test]
fn parses_integers() {
    assert_eq!(parse_i32("42"), Some(42));
    assert_eq!(parse_i32("-7"), Some(-7));
    assert_eq!(parse_i32("+3"), Some(3));
    assert_eq!(parse_i32("2147483647"), Some(i32::MAX));
    assert_eq!(parse_i32("-2147483648"), Some(i32::MIN));
    assert_eq!(parse_i32("2147483648"), None);
    assert_eq!(parse_i32("-2147483649"), None);
    assert_eq!(parse_i32("99999999999999999999"), None);
    assert_eq!(parse_i32(""), None);
    assert_eq!(parse_i32("-"), None);
    assert_eq!(parse_i32("12x"), None);
    assert_eq!(parse_i32(" 12"), None);
}

#[test]
fn parses_id_lists() {
    assert_eq!(parse_id_list("1,2,3"), vec![1, 2, 3]);
    assert_eq!(parse_id_list("7"), vec![7]);
    assert_eq!(parse_id_list("1,x,3"), vec![1, 3]);
    assert_eq!(parse_id_list(""), Vec::<i32>::new());
    assert_eq!(parse_id_list("a,b"), Vec::<i32>::new());
    assert_eq!(parse_id_list("4,,5"), vec![4, 5]);
}

#[test]
fn menu_rows_become_outputs() {
    let rows = vec![
        (1, "Pizza".to_string(), "Cheese".to_string(), 4),
        (2, "Soup".to_string(), "Onion".to_string(), 2),
    ];
    let items = Menu::get_all_items(rows);
    assert_eq!(items.len(), 2);
    assert_eq!(items[0].id, 1);
    assert_eq!(items[0].name, "Pizza");
    assert_eq!(items[1].description, "Onion");
    assert_eq!(items[1].time_to_cook_in_minutes, 2);
}

#[test]
fn table_rows_become_outputs() {
    let rows = vec![(1, "Table 1".to_string()), (21, "Table for tests".to_string())];
    let tables = Table::get_all_tables(rows);
    assert_eq!(tables.len(), 2);
    assert_eq!(tables[1].id, 21);
    assert_eq!(tables[1].description, "Table for tests");
}

#[test]
fn order_rows_become_outputs() {
    let outs = Order::get_all(vec![order_row(9, 3, 5)]);
    assert_eq!(outs.len(), 1);
    assert_eq!(outs[0].id, 9);
    assert_eq!(outs[0].table_id, 3);
    assert_eq!(outs[0].menu_id, 5);
    assert_eq!(outs[0].menu_name, "dish 5");
    assert_eq!(outs[0].seconds_left, 90);
    assert!(!outs[0].is_prepared);
    let outs = Order::get_for_tables(vec![order_row(1, 2, 3), order_row(4, 2, 6)]);
    assert_eq!(outs.len(), 2);
    assert_eq!(outs[1].id, 4);
}

#[test]
fn single_order_row_or_error() {
    let out = Order::get_one(Some(order_row(8, 2, 1))).unwrap();
    assert_eq!(out.id, 8);
    assert_eq!(Order::get_one(None).unwrap_err(), "Order not found.");
    let out = Order::get_one_for_table(Some(order_row(8, 2, 1))).unwrap();
    assert_eq!(out.table_id, 2);
    assert!(Order::get_one_for_table(None).is_err());
}

#[test]
fn builds_the_select_statement() {
    let q = select_query("WHERE o.order_id = $1");
    assert!(q.starts_with("\n        SELECT\n            o.order_id,"));
    assert!(q.contains("FROM \"order\" as o"));
    assert!(q.contains("LEFT JOIN\n            \"menu\" AS m ON o.menu_id = m.menu_id"));
    assert!(q.ends_with("        WHERE o.order_id = $1"));
    assert_eq!(select_query(""), select_query("x").strip_suffix("x").unwrap());
}

#[test]
fn builds_the_insert_statement() {
    let q = Order::create(OrderParams { table_id: 3, menu_id: vec![5] });
    let expected = "INSERT INTO \"order\" (table_id, menu_id, cooked_at, is_deleted, created_at, updated_at) VALUES (\n                3,\n                5,\n                NOW() + INTERVAL '1 minute' * (SELECT time_to_cook_in_minutes FROM \"menu\" WHERE menu_id = 5),\n                FALSE,\n                NOW(),\n                NOW())";
    assert_eq!(q, expected);

    let q = Order::create(OrderParams { table_id: 1, menu_id: vec![2, 4] });
    assert!(q.contains("menu_id = 2),"));
    assert!(q.contains("menu_id = 4),"));
    assert_eq!(q.matches("NOW())").count(), 2);
    assert!(q.contains("NOW()), (\n"));
}

#[test]
fn builds_the_delete_statement() {
    let q = Order::delete_one_for_table();
    assert!(q.contains("UPDATE\"order\""));
    assert!(q.contains("SET is_deleted = true"));
    assert!(q.contains("WHERE order_id = $1"));
    assert!(q.contains("AND table_id = $2"));
    assert!(q.contains("AND cooked_at > NOW()"));
}

#[test]
fn builds_the_connection_string() {
    assert_eq!(db_url("u", "pw", "localhost", "5432", "db"),
        "postgres://u:pw@localhost:5432/db");
}
