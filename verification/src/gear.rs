pub mod charset_filter;
