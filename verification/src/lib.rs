pub mod tags;
pub mod types;
pub mod greedy2;
pub mod pic_type;
pub mod pics_type;
pub mod greedy1;
pub mod io;
