pub mod canonical;
pub mod canonical_laws;
pub mod check;
pub mod collect;
pub mod executable;
pub mod fast_abi;
pub mod name_map;
pub mod normal_laws;
pub mod outcome_laws;
pub mod package;
pub mod release;
pub mod release_laws;
pub mod report;
pub mod source;
pub mod struct_laws;
pub mod text;
pub mod token_laws;
