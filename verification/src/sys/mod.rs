//! Dictionaries in the system data format.

pub mod static_dict;
