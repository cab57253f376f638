pub mod tcp_conn;
pub mod visa_conn;
