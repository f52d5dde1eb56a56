pub mod trixel;
pub mod trixel_data;
pub mod world;

pub use trixel::Trixel;
pub use trixel_data::{TrixelData, TrixelDataType};
pub use world::World;
