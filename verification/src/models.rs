//! The persistence layer's verified surface: the domain records as plain
//! data, the statement texts the service sends to its database, and the
//! conversion of fetched rows into output records. Opening connections,
//! binding parameters and executing statements stand with the caller that
//! owns the I/O; it hands this module plain row values and takes plain
//! records and statement texts back.

use vstd::prelude::*;
use vstd::string::StringExecFns;

use crate::text::{i32_to_string, spec_int_text};

verus! {

/// A menu record as stored: dish id, name, description and minutes needed
/// to prepare it.
#[derive(Debug)]
pub struct Menu {
    pub id: Option<i32>,
    pub name: String,
    pub description: Option<String>,
    pub time_to_cook_in_minutes: i32,
}

/// A menu record as served: one row of the menu listing.
#[derive(Debug, PartialEq)]
pub struct MenuOutput {
    pub id: i32,
    pub name: String,
    pub description: String,
    pub time_to_cook_in_minutes: i32,
}

/// A table record as stored: table id and description.
#[derive(Debug)]
pub struct Table {
    pub id: Option<i32>,
    pub description: String,
}

/// A table record as served.
#[derive(Debug, PartialEq)]
pub struct TableOutput {
    pub id: i32,
    pub description: String,
}

/// An order record as stored. The timestamps are seconds since the epoch;
/// the caller that talks to the database converts its timestamp values to
/// and from this form.
#[derive(Debug)]
pub struct Order {
    pub id: Option<i32>,
    pub table_id: i32,
    pub menu_id: i32,
    pub cooked_at: Option<i64>,
    pub is_deleted: Option<bool>,
    pub created_at: Option<i64>,
    pub updated_at: Option<i64>,
}

/// What a creation request names: the table and the menu items ordered.
#[derive(Debug)]
pub struct OrderParams {
    pub table_id: i32,
    pub menu_id: Vec<i32>,
}

/// One row of the order listing query, column by column, as the caller
/// reads it from the database.
#[derive(Debug, PartialEq)]
pub struct OrderRow {
    pub order_id: i32,
    pub table_id: i32,
    pub seconds_left: i32,
    pub is_prepared: bool,
    pub is_deleted: bool,
    pub menu_id: i32,
    pub menu_name: String,
    pub menu_description: String,
}

/// An order record as served.
#[derive(Debug, PartialEq)]
pub struct OrderOutput {
    pub id: i32,
    pub table_id: i32,
    pub menu_id: i32,
    pub menu_name: String,
    pub menu_description: String,
    pub seconds_left: i32,
    pub is_prepared: bool,
    pub is_deleted: bool,
}

/// The menu listing record assembled from one fetched row.
pub open spec fn spec_menu_output(row: (i32, String, String, i32)) -> MenuOutput {
    MenuOutput { id: row.0, name: row.1, description: row.2, time_to_cook_in_minutes: row.3 }
}

/// The table listing record assembled from one fetched row.
pub open spec fn spec_table_output(row: (i32, String)) -> TableOutput {
    TableOutput { id: row.0, description: row.1 }
}

/// The order listing record assembled from one fetched row.
pub open spec fn spec_order_output(row: OrderRow) -> OrderOutput {
    OrderOutput {
        id: row.order_id,
        table_id: row.table_id,
        menu_id: row.menu_id,
        menu_name: row.menu_name,
        menu_description: row.menu_description,
        seconds_left: row.seconds_left,
        is_prepared: row.is_prepared,
        is_deleted: row.is_deleted,
    }
}

impl Menu {
    /// Assembles the menu listing from fetched rows of
    /// (menu_id, menu_name, menu_description, time_to_cook_in_minutes).
    /// Fetching the rows stands with the caller.
    pub fn get_all_items(rows: Vec<(i32, String, String, i32)>) -> (r: Vec<MenuOutput>)
        ensures
            r@ == rows@.map_values(|row: (i32, String, String, i32)| spec_menu_output(row)),
    {
        let ghost orig = rows@;
        let mut rows = rows;
        let mut items: Vec<MenuOutput> = Vec::new();
        let ghost taken: int = 0;
        while rows.len() > 0
            invariant
                0 <= taken <= orig.len(),
                rows@ == orig.skip(taken),
                items@ == orig.take(taken).map_values(
                    |row: (i32, String, String, i32)| spec_menu_output(row),
                ),
            decreases rows@.len(),
        {
            let row = rows.remove(0);
            proof {
                assert(row == orig[taken]);
                assert(rows@ =~= orig.skip(taken + 1));
            }
            items.push(
                MenuOutput { id: row.0, name: row.1, description: row.2, time_to_cook_in_minutes: row.3 },
            );
            proof {
                taken = taken + 1;
                assert(items@ =~= orig.take(taken).map_values(
                    |row: (i32, String, String, i32)| spec_menu_output(row),
                )) by {
                    assert(orig.take(taken).drop_last() =~= orig.take(taken - 1));
                    assert(orig.take(taken).last() == orig[taken - 1]);
                    assert forall|j: int|
                        0 <= j < taken implies orig.take(taken).map_values(
                        |row: (i32, String, String, i32)| spec_menu_output(row),
                    )[j] == items@[j] by {
                        assert(orig.take(taken)[j] == orig[j]);
                        if j < taken - 1 {
                            assert(orig.take(taken - 1)[j] == orig[j]);
                        }
                    }
                }
            }
        }
        proof {
            assert(orig.take(taken) =~= orig);
        }
        items
    }
}

impl Table {
    /// Assembles the table listing from fetched rows of
    /// (table_id, table_description). Fetching the rows stands with the
    /// caller.
    pub fn get_all_tables(rows: Vec<(i32, String)>) -> (r: Vec<TableOutput>)
        ensures
            r@ == rows@.map_values(|row: (i32, String)| spec_table_output(row)),
    {
        let ghost orig = rows@;
        let mut rows = rows;
        let mut items: Vec<TableOutput> = Vec::new();
        let ghost taken: int = 0;
        while rows.len() > 0
            invariant
                0 <= taken <= orig.len(),
                rows@ == orig.skip(taken),
                items@ == orig.take(taken).map_values(|row: (i32, String)| spec_table_output(row)),
            decreases rows@.len(),
        {
            let row = rows.remove(0);
            proof {
                assert(row == orig[taken]);
                assert(rows@ =~= orig.skip(taken + 1));
            }
            items.push(TableOutput { id: row.0, description: row.1 });
            proof {
                taken = taken + 1;
                assert(items@ =~= orig.take(taken).map_values(
                    |row: (i32, String)| spec_table_output(row),
                )) by {
                    assert forall|j: int|
                        0 <= j < taken implies orig.take(taken).map_values(
                        |row: (i32, String)| spec_table_output(row),
                    )[j] == items@[j] by {
                        assert(orig.take(taken)[j] == orig[j]);
                        if j < taken - 1 {
                            assert(orig.take(taken - 1)[j] == orig[j]);
                        }
                    }
                }
            }
        }
        proof {
            assert(orig.take(taken) =~= orig);
        }
        items
    }
}

/// The order listing statement with a caller-chosen WHERE clause appended;
/// the caller executes it and reads the rows back.
pub open spec fn spec_select_query(where_clause: Seq<char>) -> Seq<char> {
    "\n        SELECT\n            o.order_id,\n            o.table_id,\n            o.cooked_at,\n            o.is_deleted,\n            (o.cooked_at <= NOW() AND o.is_deleted = false) as is_prepared,\n            CAST(EXTRACT(EPOCH FROM (o.cooked_at - NOW())) AS INTEGER) AS seconds_left,\n            m.menu_id,\n            m.menu_name,\n            m.menu_description\n        FROM \"order\" as o\n        LEFT JOIN\n            \"menu\" AS m ON o.menu_id = m.menu_id\n        "@
        + where_clause
}

/// Builds the order listing statement with the given WHERE clause.
pub fn select_query(where_clause: &str) -> (r: String)
    ensures
        r@ == spec_select_query(where_clause@),
{
    String::from_str(
        "\n        SELECT\n            o.order_id,\n            o.table_id,\n            o.cooked_at,\n            o.is_deleted,\n            (o.cooked_at <= NOW() AND o.is_deleted = false) as is_prepared,\n            CAST(EXTRACT(EPOCH FROM (o.cooked_at - NOW())) AS INTEGER) AS seconds_left,\n            m.menu_id,\n            m.menu_name,\n            m.menu_description\n        FROM \"order\" as o\n        LEFT JOIN\n            \"menu\" AS m ON o.menu_id = m.menu_id\n        ",
    ).concat(where_clause)
}

/// One VALUES group of the order creation statement: the table, the menu
/// item, and the preparation deadline computed by the database from that
/// item's cooking time.
pub open spec fn spec_order_value(table_id: int, menu_id: int) -> Seq<char> {
    "(\n                "@ + spec_int_text(table_id) + ",\n                "@ + spec_int_text(
        menu_id,
    )
        + ",\n                NOW() + INTERVAL '1 minute' * (SELECT time_to_cook_in_minutes FROM \"menu\" WHERE menu_id = "@
        + spec_int_text(menu_id) + "),\n                FALSE,\n                NOW(),\n                NOW())"@
}

/// The VALUES groups for every ordered menu item, joined with commas.
pub open spec fn spec_values_joined(table_id: int, menu_ids: Seq<int>) -> Seq<char>
    decreases menu_ids.len(),
{
    if menu_ids.len() == 0 {
        Seq::empty()
    } else if menu_ids.len() == 1 {
        spec_order_value(table_id, menu_ids[0])
    } else {
        spec_values_joined(table_id, menu_ids.drop_last()) + ", "@ + spec_order_value(
            table_id,
            menu_ids.last(),
        )
    }
}

/// The whole order creation statement for a set of request parameters.
pub open spec fn spec_insert_orders(table_id: int, menu_ids: Seq<int>) -> Seq<char> {
    "INSERT INTO \"order\" (table_id, menu_id, cooked_at, is_deleted, created_at, updated_at) VALUES "@
        + spec_values_joined(table_id, menu_ids)
}

/// Builds one VALUES group.
fn order_value(table_id: i32, menu_id: i32) -> (r: String)
    ensures
        r@ == spec_order_value(table_id as int, menu_id as int),
{
    let r = String::from_str("(\n                ").concat(i32_to_string(table_id).as_str())
        .concat(",\n                ").concat(i32_to_string(menu_id).as_str()).concat(
        ",\n                NOW() + INTERVAL '1 minute' * (SELECT time_to_cook_in_minutes FROM \"menu\" WHERE menu_id = ",
    ).concat(i32_to_string(menu_id).as_str()).concat(
        "),\n                FALSE,\n                NOW(),\n                NOW())",
    );
    proof {
        assert(r@ =~= spec_order_value(table_id as int, menu_id as int));
    }
    r
}

impl Order {
    /// Assembles the order listing from fetched rows. Fetching the rows —
    /// the `select_query` statement with no WHERE clause — stands with the
    /// caller.
    pub fn get_all(rows: Vec<OrderRow>) -> (r: Vec<OrderOutput>)
        ensures
            r@ == rows@.map_values(|row: OrderRow| spec_order_output(row)),
    {
        let ghost orig = rows@;
        let mut rows = rows;
        let mut items: Vec<OrderOutput> = Vec::new();
        let ghost taken: int = 0;
        while rows.len() > 0
            invariant
                0 <= taken <= orig.len(),
                rows@ == orig.skip(taken),
                items@ == orig.take(taken).map_values(|row: OrderRow| spec_order_output(row)),
            decreases rows@.len(),
        {
            let row = rows.remove(0);
            proof {
                assert(row == orig[taken]);
                assert(rows@ =~= orig.skip(taken + 1));
            }
            items.push(
                OrderOutput {
                    id: row.order_id,
                    table_id: row.table_id,
                    menu_id: row.menu_id,
                    menu_name: row.menu_name,
                    menu_description: row.menu_description,
                    seconds_left: row.seconds_left,
                    is_prepared: row.is_prepared,
                    is_deleted: row.is_deleted,
                },
            );
            proof {
                taken = taken + 1;
                assert(items@ =~= orig.take(taken).map_values(
                    |row: OrderRow| spec_order_output(row),
                )) by {
                    assert forall|j: int|
                        0 <= j < taken implies orig.take(taken).map_values(
                        |row: OrderRow| spec_order_output(row),
                    )[j] == items@[j] by {
                        assert(orig.take(taken)[j] == orig[j]);
                        if j < taken - 1 {
                            assert(orig.take(taken - 1)[j] == orig[j]);
                        }
                    }
                }
            }
        }
        proof {
            assert(orig.take(taken) =~= orig);
        }
        items
    }

    /// Assembles the order listing for a set of tables from fetched rows.
    /// Fetching the rows — the `select_query` statement with the table
    /// filter as its WHERE clause — stands with the caller.
    pub fn get_for_tables(rows: Vec<OrderRow>) -> (r: Vec<OrderOutput>)
        ensures
            r@ == rows@.map_values(|row: OrderRow| spec_order_output(row)),
    {
        Order::get_all(rows)
    }

    /// Assembles one order record from the row the caller's single-row
    /// query returned, or reports that there was none.
    pub fn get_one(row: Option<OrderRow>) -> (r: Result<OrderOutput, String>)
        ensures
            match row {
                Some(rw) => r matches Ok(out) && out == spec_order_output(rw),
                None => r matches Err(e) && e@ == "Order not found."@,
            },
    {
        match row {
            Some(rw) => Ok(
                OrderOutput {
                    id: rw.order_id,
                    table_id: rw.table_id,
                    menu_id: rw.menu_id,
                    menu_name: rw.menu_name,
                    menu_description: rw.menu_description,
                    seconds_left: rw.seconds_left,
                    is_prepared: rw.is_prepared,
                    is_deleted: rw.is_deleted,
                },
            ),
            None => Err(String::from_str("Order not found.")),
        }
    }

    /// Assembles one order record of one table from the row the caller's
    /// single-row query returned, or reports that there was none.
    pub fn get_one_for_table(row: Option<OrderRow>) -> (r: Result<OrderOutput, String>)
        ensures
            match row {
                Some(rw) => r matches Ok(out) && out == spec_order_output(rw),
                None => r matches Err(e) && e@ == "Order not found."@,
            },
    {
        Order::get_one(row)
    }

    /// Builds the creation statement for the given request parameters: one
    /// VALUES group per ordered menu item. Executing it — and reading back
    /// the table's preparing orders — stands with the caller.
    pub fn create(order_params: OrderParams) -> (r: String)
        ensures
            r@ == spec_insert_orders(
                order_params.table_id as int,
                order_params.menu_id@.map_values(|m: i32| m as int),
            ),
    {
        let t = order_params.table_id;
        let ids = order_params.menu_id;
        let ghost idsv = ids@.map_values(|m: i32| m as int);
        let mut vals = String::new();
        let mut i: usize = 0;
        while i < ids.len()
            invariant
                0 <= i <= ids@.len(),
                idsv == ids@.map_values(|m: i32| m as int),
                idsv.len() == ids@.len(),
                vals@ == spec_values_joined(t as int, idsv.take(i as int)),
            decreases ids@.len() - i,
        {
            if i > 0 {
                vals = vals.concat(", ");
            }
            vals = vals.concat(order_value(t, ids[i]).as_str());
            proof {
                assert(idsv[i as int] == ids@[i as int] as int);
                assert(idsv.take(i + 1).drop_last() =~= idsv.take(i as int));
                assert(idsv.take(i + 1).last() == idsv[i as int]);
                assert(vals@ =~= spec_values_joined(t as int, idsv.take(i + 1)));
            }
            i = i + 1;
        }
        proof {
            assert(idsv.take(i as int) =~= idsv);
        }
        let r = String::from_str(
            "INSERT INTO \"order\" (table_id, menu_id, cooked_at, is_deleted, created_at, updated_at) VALUES ",
        ).concat(vals.as_str());
        r
    }

    /// The statement that marks one order of one table as deleted, with the
    /// order id and the table id as its two parameters, provided the order
    /// is not yet deleted and not yet prepared. Binding the parameters and
    /// executing it stand with the caller.
    pub fn delete_one_for_table() -> (r: String)
        ensures
            r@ == "\n            UPDATE\"order\"\n            SET is_deleted = true\n            WHERE order_id = $1\n            AND table_id = $2\n            AND is_deleted = false\n            AND cooked_at > NOW()"@,
    {
        String::from_str(
            "\n            UPDATE\"order\"\n            SET is_deleted = true\n            WHERE order_id = $1\n            AND table_id = $2\n            AND is_deleted = false\n            AND cooked_at > NOW()",
        )
    }
}

/// The connection string assembled from the database settings.
pub open spec fn spec_db_url(
    user: Seq<char>,
    pass: Seq<char>,
    host: Seq<char>,
    port: Seq<char>,
    dbname: Seq<char>,
) -> Seq<char> {
    "postgres://"@ + user + ":"@ + pass + "@"@ + host + ":"@ + port + "/"@ + dbname
}

/// Builds the connection string from the database settings.
pub fn db_url(user: &str, pass: &str, host: &str, port: &str, dbname: &str) -> (r: String)
    ensures
        r@ == spec_db_url(user@, pass@, host@, port@, dbname@),
{
    let r = String::from_str("postgres://").concat(user).concat(":").concat(pass).concat("@")
        .concat(host).concat(":").concat(port).concat("/").concat(dbname);
    proof {
        assert(r@ =~= spec_db_url(user@, pass@, host@, port@, dbname@));
    }
    r
}

} // verus!
