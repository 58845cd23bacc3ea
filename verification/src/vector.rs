pub mod vector_data;
pub mod vector_entry;
