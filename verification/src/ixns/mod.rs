pub mod create_trixel_and_ancestors;
pub mod create_world;
pub mod update_trixel;

pub use create_trixel_and_ancestors::{
    handle_create_trixel_and_ancestors, AncestorAccount, CreateTrixelAndAncestorsArgs,
    CreateTrixelAndAncestorsCtx,
};
pub use create_world::{handle_create_world, CreateWorldArgs, CreateWorldCtx};
pub use update_trixel::{handle_update_trixel, TrixelAccount, UpdateTrixelArgs, UpdateTrixelCtx};
