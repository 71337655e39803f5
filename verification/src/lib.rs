pub mod character;
pub mod codec;
pub mod countermap;
pub mod session;
pub mod world;

pub use character::Char;
pub use character::Size;
pub use codec::DecodeFault;
pub use codec::FromClient;
pub use codec::FromServer;
pub use countermap::Counter;
pub use countermap::CounterMap;
pub use world::Dir;
pub use world::Entity;
pub use world::MapLoc;
pub use world::Player;
pub use world::Tile;
pub use world::TileMap;
pub use world::World;
