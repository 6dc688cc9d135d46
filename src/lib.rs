pub mod bencode;
pub mod fixed_vec;
pub mod krpc;
pub mod node_id;
pub mod routing;
