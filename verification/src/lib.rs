pub mod config;
pub mod db;
pub mod otp_importer;
pub mod pipeline;
