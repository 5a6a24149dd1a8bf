//! The router for the `/tables` endpoint.

use vstd::prelude::*;

use crate::method::Method;
use crate::router::{empty_node, spec_base, spec_route_added, split_path, Router, RouterModel};
use crate::routes::Endpoint;

verus! {

/// The model of the table route table: under the base segment `tables`, GET
/// of the base lists the tables; below a dynamic table id (or id list),
/// `orders` can be listed, and one order can be shown or removed.
pub open spec fn spec_tables_model() -> RouterModel<Endpoint> {
    let m0 = RouterModel { base: spec_base("/tables"@), node: empty_node::<Endpoint>() };
    let m1 = spec_route_added(m0, split_path("/"@), Method::Get, Endpoint::GetTables);
    let m2 = spec_route_added(
        m1,
        split_path("/:table_id_list/orders/"@),
        Method::Get,
        Endpoint::GetTableOrders,
    );
    let m3 = spec_route_added(
        m2,
        split_path("/:table_id/orders/:order_id"@),
        Method::Get,
        Endpoint::GetOrderForTable,
    );
    spec_route_added(
        m3,
        split_path("/:table_id/orders/:order_id"@),
        Method::Delete,
        Endpoint::DeleteOrderForTable,
    )
}

/// Creates a router for the `/tables` endpoint.
///
/// GET `/tables` returns a list of all tables.
///
/// GET `/tables/:table_id_list/orders/` returns all items for a specified
/// table list.
///
/// GET `/tables/:table_id/orders/:order_id` returns a specified item for a
/// specified table number.
///
/// DELETE `/tables/:table_id/orders/:order_id` removes a specified item for
/// a specified table number and returns all currently preparing items for
/// this table.
pub fn create() -> (r: Router<Endpoint>)
    ensures
        r.wf(),
        r@ == spec_tables_model(),
{
    proof {
        reveal_strlit("/tables");
    }
    Router::new("/tables").get("/", Endpoint::GetTables).get(
        "/:table_id_list/orders/",
        Endpoint::GetTableOrders,
    ).get("/:table_id/orders/:order_id", Endpoint::GetOrderForTable).delete(
        "/:table_id/orders/:order_id",
        Endpoint::DeleteOrderForTable,
    )
}

} // verus!
