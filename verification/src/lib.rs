pub mod assoc;
pub mod ids;
pub mod layout;
pub mod topology;
pub mod transaction;
pub mod screen;
pub mod space;
pub mod menu;
pub mod raise;
pub mod reactor;
