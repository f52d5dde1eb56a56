pub mod descent;
pub mod htm;
pub mod pda;
pub mod sha256;

pub use descent::{select_candidate, HtmDescent, HtmSearch};
pub use htm::{get_child_index, get_trixel_ancestors, resolution_from_trixel_id};
pub use pda::{get_trixel_pda, verify_trixel_account};
