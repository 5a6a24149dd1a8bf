//! The router for the `/orders` endpoint.

use vstd::prelude::*;

use crate::method::Method;
use crate::router::{empty_node, spec_base, spec_route_added, split_path, Router, RouterModel};
use crate::routes::Endpoint;

verus! {

/// The model of the order route table: under the base segment `orders`, GET
/// of the base lists the orders being prepared, GET of `:order_id` shows
/// one, and POST of the base creates orders from the request body.
pub open spec fn spec_orders_model() -> RouterModel<Endpoint> {
    let m0 = RouterModel { base: spec_base("/orders"@), node: empty_node::<Endpoint>() };
    let m1 = spec_route_added(m0, split_path("/"@), Method::Get, Endpoint::GetOrders);
    let m2 = spec_route_added(m1, split_path("/:order_id"@), Method::Get, Endpoint::GetOneOrder);
    spec_route_added(m2, split_path("/"@), Method::Post, Endpoint::PostOrder)
}

/// Creates a router for the `/orders` endpoint.
///
/// GET `/orders` returns a list of all items being prepared.
///
/// GET `/orders/:order_id` returns a specified order's data.
///
/// POST `/orders` creates an order for a specified table with a specified
/// list of menu items and returns all currently preparing items for this
/// table.
pub fn create() -> (r: Router<Endpoint>)
    ensures
        r.wf(),
        r@ == spec_orders_model(),
{
    proof {
        reveal_strlit("/orders");
    }
    Router::new("/orders").get("/", Endpoint::GetOrders).get(
        "/:order_id",
        Endpoint::GetOneOrder,
    ).post("/", Endpoint::PostOrder)
}

} // verus!
