//! Planning for fully observable non-deterministic hierarchical task networks.

pub mod andstar;
pub mod composition;
pub mod costs;
pub mod costs_laws;
pub mod dead_ends;
pub mod depth_laws;
pub mod determined;
pub mod domain;
pub mod dot;
pub mod ff;
pub mod ff_laws;
pub mod goal_checks;
pub mod graph_laws;
pub mod graphplan;
pub mod hmax;
pub mod key_laws;
pub mod layer_laws;
pub mod lmcut;
pub mod lmcut_laws;
pub mod lower_bound;
pub mod named;
pub mod named_laws;
pub mod optimality;
pub mod order;
pub mod path_laws;
pub mod policy;
pub mod policy_laws;
pub mod prob;
pub mod prob_laws;
pub mod probability;
pub mod problem;
pub mod progress;
pub mod proper;
pub mod reach;
pub mod reach_laws;
pub mod relaxed_laws;
pub mod result_laws;
pub mod search_laws;
pub mod search_space;
pub mod sets;
pub mod signature;
pub mod step_laws;
pub mod task_network;
pub mod text_laws;
