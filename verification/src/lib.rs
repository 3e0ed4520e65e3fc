pub mod fault;
pub mod jump_map;
pub mod machine;
pub mod op;
pub mod pairing;
pub mod parse;
pub mod parse_laws;
pub mod program_state;
pub mod run_laws;
