//! Open-addressing hash tables keyed by 64-bit integers, with verified
//! contracts: linear probing with tombstones, Robin Hood hashing with
//! backward-shift deletion, and two-table cuckoo hashing. Beside them stand
//! the smaller exercises of the same collection: searching and sorting,
//! sequence containers, and a few counting problems.

pub mod hashing;
pub mod slots;
pub mod linear_probing;
pub mod robin_hood;
pub mod cuckoo;
pub mod search;
pub mod sort;
pub mod vector;
pub mod vec_deque;
pub mod linked_list;
pub mod cses;
