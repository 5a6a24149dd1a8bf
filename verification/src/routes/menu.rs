//! The router for the `/menu` endpoint.

use vstd::prelude::*;

use crate::method::Method;
use crate::router::{empty_node, spec_base, spec_route_added, split_path, Router, RouterModel};
use crate::routes::Endpoint;

verus! {

/// The model of the menu route table: under the base segment `menu`, GET of
/// the base itself lists the menu.
pub open spec fn spec_menu_model() -> RouterModel<Endpoint> {
    spec_route_added(
        RouterModel { base: spec_base("/menu"@), node: empty_node::<Endpoint>() },
        split_path("/"@),
        Method::Get,
        Endpoint::GetMenu,
    )
}

/// Creates a router for the `/menu` endpoint.
///
/// GET `/menu` returns a list of menu items.
pub fn create() -> (r: Router<Endpoint>)
    ensures
        r.wf(),
        r@ == spec_menu_model(),
{
    proof {
        reveal_strlit("/menu");
    }
    Router::new("/menu").get("/", Endpoint::GetMenu)
}

} // verus!
