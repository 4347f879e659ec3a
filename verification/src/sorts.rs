//! The sorting strategies.
pub mod comparative_sort;
pub mod lsb_sort;
pub mod out_of_place_sort;
pub mod recombinating_sort;
pub mod scanning_sort;
pub mod ska_sort;
