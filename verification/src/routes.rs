//! The service's route table. Handlers are named by the [`Endpoint`] token;
//! the caller that owns the I/O interprets a resolved token, so the table's
//! shape — which method and path lead to which endpoint — is fixed and
//! stated here.

pub mod menu;
pub mod orders;
pub mod tables;

use vstd::prelude::*;

use crate::method::Method;
use crate::router::{
    empty_node, spec_base, spec_merge, spec_route_added, split_path, Router, RouterModel,
};

verus! {

/// Names one of the service's request handlers. The router stores these
/// tokens; executing one (queries, JSON encoding, the response body) is the
/// caller's business.
#[derive(Clone, Copy, PartialEq, Eq, Hash, Debug, Structural)]
pub enum Endpoint {
    /// Reports that the service is running.
    HealthCheck,
    /// Lists the whole menu.
    GetMenu,
    /// Lists all orders being prepared.
    GetOrders,
    /// Shows one order by its id.
    GetOneOrder,
    /// Creates orders for a table from the request body.
    PostOrder,
    /// Lists all tables.
    GetTables,
    /// Lists the orders of the tables named in the path.
    GetTableOrders,
    /// Shows one order of one table.
    GetOrderForTable,
    /// Removes one order of one table.
    DeleteOrderForTable,
}

/// The model of the whole route table mounted at `base`: a health check at
/// the base itself, with the menu, table and order subtrees merged below
/// it.
pub open spec fn spec_routes_model(base: Seq<char>) -> RouterModel<Endpoint> {
    let m0 = RouterModel { base: spec_base(base), node: empty_node::<Endpoint>() };
    let m1 = spec_route_added(m0, split_path("/"@), Method::Get, Endpoint::HealthCheck);
    let m2 = spec_merge(m1, menu::spec_menu_model().node);
    let m3 = spec_merge(m2, tables::spec_tables_model().node);
    spec_merge(m3, orders::spec_orders_model().node)
}

/// Creates the router for the whole service under `base`.
///
/// GET `<base>/` reports that the service is running; the menu, table and
/// order routers are merged below the base.
pub fn create(base: &str) -> (r: Router<Endpoint>)
    requires
        base@.len() == 0 || base@[0] == '/',
    ensures
        r.wf(),
        r@ == spec_routes_model(base@),
{
    Router::new(base).get("/", Endpoint::HealthCheck).merge_from(menu::create()).merge_from(
        tables::create(),
    ).merge_from(orders::create())
}

} // verus!
