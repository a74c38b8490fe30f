pub mod data_series_encodings;
pub mod preservation_map;
pub mod tag_encodings;
